//! Valmari's DFA minimization ("Fast brief practical DFA minimization", 2012):
//! refinable partitions of the states (`blocks`) and of the transitions (`cords`),
//! refined against each other until stable, after a backward pass that keeps only
//! the states from which an accepting state can be reached.

use crate::fa::{
    accepts, accepts_from, equiv_states, has_word, reachable, lemma_accepting_word, lemma_run_concat, lemma_run_in_range, lemma_run_same,
    lemma_word_coreachable, lemma_word_step, run_from, Fa,
};
use std::collections::{BTreeMap, BTreeSet};
use vstd::prelude::*;
use vstd::relations::injective_on;
use vstd::set_lib::*;
use vstd::std_specs::iter::IteratorSpec;

verus! {

broadcast use vstd::std_specs::btree::group_btree_axioms;

/// Why [`minimize`] refused its input.
#[derive(Debug, Clone, PartialEq, Eq)]
pub enum MinimizeError {
    /// Some `(state, symbol)` pair had more than one destination.
    NotDeterministic,
    /// Two transitions out of the same final block on the same symbol disagreed on
    /// the destination block.
    ConflictingTransitions,
}

/// A deterministic automaton in which every present transition has exactly one
/// destination, the start state is a state, and every output is `0` or `1`.
pub open spec fn is_partial_dfa(m: &Fa) -> bool {
    &&& m.wf()
    &&& m.q0 < m.q
    &&& forall|p: int, sym: i32| 0 <= p < m.q && #[trigger] m.row(p).contains_key(sym) ==> m.dests(p, sym).len() == 1
    &&& forall|p: int| 0 <= p < m.q ==> #[trigger] m.o@[p] == 0 || m.o@[p] == 1
}

/// The canonical automaton of the empty language over `alphabet_size` symbols: one
/// rejecting state and no transitions.
pub open spec fn is_empty_language_dfa(m: &Fa, alphabet_size: usize) -> bool {
    &&& m.true_false is None
    &&& m.q == 1
    &&& m.q0 == 0
    &&& m.alphabet_size == alphabet_size
    &&& m.o@ == seq![0i32]
    &&& m.d@.len() == 1
    &&& m.row(0) == Map::<i32, Vec<usize>>::empty()
}

/// No two states of `m` accept the same words.
pub open spec fn states_distinguished(m: &Fa) -> bool {
    forall|i: int, j: int| 0 <= i < m.q && 0 <= j < m.q && i != j ==> !#[trigger] equiv_states(m, i, j)
}

/// Every state of `m` accepts some word.
pub open spec fn states_live(m: &Fa) -> bool {
    forall|i: int| 0 <= i < m.q ==> #[trigger] has_word(m, i)
}

/// `m` is minimal: no two of its states accept the same words and, unless it accepts
/// nothing at all, every state accepts some word.
pub open spec fn is_minimal(m: &Fa) -> bool {
    &&& states_distinguished(m)
    &&& (exists|w: Seq<i32>| accepts(m, w)) ==> states_live(m)
}

/// The language of `a`'s start state is nonempty exactly when `b`'s is, for automata
/// with the same language; a minimal automaton stays minimal under that description.
pub proof fn lemma_minimal_from_parts(fa: &Fa, m: &Fa)
    requires
        forall|w: Seq<i32>| #[trigger] accepts(m, w) == accepts(fa, w),
        states_distinguished(m),
        (exists|w: Seq<i32>| accepts(fa, w)) ==> states_live(m),
    ensures
        is_minimal(m),
{
    if exists|w: Seq<i32>| accepts(m, w) {
        let w = choose|w: Seq<i32>| accepts(m, w);
        assert(accepts(fa, w));
    }
}

/// Minimizes a deterministic automaton with Valmari's algorithm, returning a new
/// automaton.
///
/// States from which no accepting state can be reached are dropped together with the
/// transitions into them, so the result is in general a partial automaton; states are
/// merged when no word tells them apart. A nondeterministic input is refused. When no
/// accepting state can be reached from the start state, the result is the canonical
/// automaton of the empty language: one rejecting state and no transitions.
#[verifier::spinoff_prover]
#[verifier::rlimit(100)]
pub fn minimize(fa: &Fa) -> (r: Result<Fa, MinimizeError>)
    requires
        fa.wf(),
        fa.q > 0 ==> fa.q0 < fa.q,
    ensures
        r == Err::<Fa, MinimizeError>(MinimizeError::NotDeterministic) <==> !fa.spec_deterministic(),
        r is Err ==> r == Err::<Fa, MinimizeError>(MinimizeError::NotDeterministic),
        fa.spec_deterministic() && fa.q == 0 ==> ({
            let m = r->Ok_0;
            &&& r is Ok
            &&& m.true_false == fa.true_false
            &&& m.q == 0
            &&& m.q0 == fa.q0
            &&& m.alphabet_size == fa.alphabet_size
            &&& m.o@ == fa.o@
            &&& m.d@ == fa.d@
        }),
        fa.spec_deterministic() && fa.q > 0 ==> ({
            let m = r->Ok_0;
            &&& r is Ok
            &&& is_partial_dfa(&m)
            &&& 1 <= m.q <= fa.q
            &&& m.alphabet_size == fa.alphabet_size
            &&& m.true_false is None
        }),
        fa.spec_deterministic() && fa.q > 0 && fa.accepts_nothing() ==> r is Ok && is_empty_language_dfa(
            &r->Ok_0,
            fa.alphabet_size,
        ),
        r is Ok ==> forall|w: Seq<i32>| #[trigger] accepts(&r->Ok_0, w) == accepts(fa, w),
        fa.spec_deterministic() && fa.q > 0 ==> states_distinguished(&r->Ok_0),
        fa.spec_deterministic() && fa.q > 0 && (exists|w: Seq<i32>| accepts(fa, w)) ==> states_live(&r->Ok_0),
        fa.spec_deterministic() && fa.q > 0 && (forall|x: int| 0 <= x < fa.q ==> #[trigger] reachable(fa, x)) ==> forall|
            j: int,
        | 0 <= j < r->Ok_0.q ==> #[trigger] reachable(&r->Ok_0, j),
        fa.spec_deterministic() && fa.q > 0 && !(exists|w: Seq<i32>| accepts(fa, w)) ==> is_empty_language_dfa(
            &r->Ok_0,
            fa.alphabet_size,
        ),
{
    if !fa.is_deterministic() {
        return Err(MinimizeError::NotDeterministic);
    }
    if fa.q == 0 {
        let m = Fa {
            true_false: fa.true_false,
            q0: fa.q0,
            q: 0,
            alphabet_size: fa.alphabet_size,
            o: Vec::new(),
            d: Vec::new(),
        };
        assert(m.o@ =~= fa.o@);
        assert(m.d@ =~= fa.d@);
        proof {
            assert forall|w: Seq<i32>| #[trigger] accepts(&m, w) == accepts(fa, w) by {
                lemma_run_same(&m, fa, fa.q0 as int, w);
            }
        }
        return Ok(m);
    }
    let n = fa.q;
    let (tail0, label0, head0) = flatten(fa);
    let (mut blocks, rr, nf) = coreachable_prefix(fa, &tail0, &label0, &head0);
    let ghost b1 = blocks;
    proof {
        if fa.accepts_nothing() {
            if b1.loc@[fa.q0 as int] < rr {
                assert(b1.elems@[b1.loc@[fa.q0 as int] as int] == fa.q0);
                lemma_word_coreachable(fa, fa.q0 as int);
            }
        }
    }
    let (tail, label, head) = keep_coreachable(fa, &blocks, rr, &tail0, &label0, &head0);
    proof {
        lemma_live_facts(fa, &b1, rr as int, nf as int, tail0@, label0@, head0@, tail@, label@, head@);
    }
    let nt = tail.len();
    blocks.past.set(0, rr);
    proof {
        assert forall|pos: int| 0 <= pos < rr implies #[trigger] blocks.owner(pos) < blocks.z
            && blocks.first@[blocks.owner(pos)] <= pos < blocks.past@[blocks.owner(pos)] by {
            assert(blocks.elems@[pos] < n);
        }
        assert forall|s: int, pos: int|
            #![trigger blocks.first@[s], blocks.owner(pos)]
            0 <= s < blocks.z && blocks.first@[s] <= pos < blocks.past@[s] implies blocks.owner(pos) == s by {
            assert(blocks.elems@[pos] < n);
        }
        assert(blocks.sets(rr as int));
        assert forall|t: int| 0 <= t < tail@.len() implies #[trigger] tail@[t] < n && head@[t] < n
            && blocks.loc@[tail@[t] as int] < rr && blocks.loc@[head@[t] as int] < rr by {
            assert(b1.loc@[tail@[t] as int] < rr);
        }
        assert(trans_in(&blocks, n as int, rr as int, tail@, label@, head@));
    }
    let big: usize = if n > nt { n } else { nt };
    let mut m: Vec<usize> = vec![0; big];
    m.push(0);
    let mut sc = Scratch { m, w: Vec::new() };
    assert(sc.clean());
    let ghost b2 = blocks;
    if nf != 0 {
        sc.m.set(0, nf);
        sc.w.push(0);
        proof {
            assert(sc.w@ == seq![0usize]);
            assert forall|s: int| 0 <= s < sc.m@.len() implies (#[trigger] sc.m@[s] > 0 <==> sc.w@.contains(
                s as usize,
            )) by {
                if s == 0 {
                    assert(sc.w@[0] == 0);
                } else {
                    if sc.w@.contains(s as usize) {
                        assert(sc.w@[0] == s as usize);
                    }
                }
            }
            assert(blocks.marks_ok(&sc, rr as int));
        }
        let ghost mm0 = sc.m@;
        blocks.split(&mut sc, Ghost(rr as int));
        proof {
            lemma_finals_initial(&b2, &blocks, mm0, fa, nf as int, rr as int);
            assert forall|x: int, y: int|
                0 <= x < fa.q && 0 <= y < fa.q && b1.loc@[x] < rr && b1.loc@[y] < rr && #[trigger] equiv_states(fa, x, y)
                implies blocks.set_of@[x] == blocks.set_of@[y] by {
                assert(kept_together(&blocks, &b2, mm0, rr as int, x, y));
                assert(accepts_from(fa, x, Seq::<i32>::empty()) == accepts_from(fa, y, Seq::<i32>::empty()));
                assert(fa.accepting(x) == (b1.loc@[x] < nf));
                assert(fa.accepting(y) == (b1.loc@[y] < nf));
            }
            assert(blocks_respect(fa, &b1, &blocks, rr as int)) by {
                reveal(blocks_respect);
            }
        }
    } else {
        proof {
            assert forall|x: int, y: int|
                0 <= x < b2.n() && 0 <= y < b2.n() && b2.loc@[x] < rr && b2.loc@[y] < rr && #[trigger] blocks.set_of@[x]
                    == #[trigger] blocks.set_of@[y] implies premarked(&b2, sc.m@, x) == premarked(&b2, sc.m@, y) by {
                lemma_first_of_block(&b2, rr as int, x);
                lemma_first_of_block(&b2, rr as int, y);
            }
            lemma_finals_initial(&b2, &blocks, sc.m@, fa, nf as int, rr as int);
            assert forall|x: int, y: int|
                0 <= x < fa.q && 0 <= y < fa.q && b1.loc@[x] < rr && b1.loc@[y] < rr && #[trigger] equiv_states(fa, x, y)
                implies blocks.set_of@[x] == blocks.set_of@[y] by {
            }
            assert(blocks_respect(fa, &b1, &blocks, rr as int)) by {
                reveal(blocks_respect);
            }
        }
    }
    proof {
        assert forall|t: int| 0 <= t < tail@.len() implies #[trigger] tail@[t] < n && head@[t] < n
            && blocks.loc@[tail@[t] as int] < rr && blocks.loc@[head@[t] as int] < rr by {
            assert(b2.loc@[tail@[t] as int] < rr);
        }
        assert(trans_in(&blocks, n as int, rr as int, tail@, label@, head@));
    }
    let (key, nr) = label_ranks(&label);
    let ghost key0 = key@;
    let mut cords = cords_from_keys(key, nr);
    proof {
        assert forall|t1: int, t2: int|
            0 <= t1 < label@.len() && 0 <= t2 < label@.len() && label@[t1] == label@[t2] && #[trigger] heads_equiv(
                fa,
                head@,
                t1,
                t2,
            ) implies cords.set_of@[t1] == cords.set_of@[t2] by {
            assert(key0[t1] == key0[t2]);
        }
        assert(cords_respect(fa, &cords, label@, head@)) by {
            reveal(cords_respect);
        }
    }
    let mut af: Vec<usize> = vec![0; n];
    af.push(0);
    let mut adj: Vec<usize> = vec![0; nt];
    proof {
        assert forall|t: int| 0 <= t < head@.len() implies #[trigger] head@[t] < n by {
            assert(tail@[t] < n);
        }
    }
    make_adjacent(&head, n, &mut af, &mut adj);
    proof {
        blocks.lemma_z_bound(rr as int);
        cords.lemma_z_bound(nt as int);
    }
    let mut b: usize = 1;
    let mut c: usize = 0;
    while c < cords.z
        invariant
            n == fa.q,
            nt == tail@.len(),
            nt == head@.len(),
            nt == label@.len(),
            1 <= n,
            rr <= n,
            n <= big,
            nt <= big,
            sc.clean(),
            sc.m@.len() == big + 1,
            blocks.perm(),
            blocks.sets(rr as int),
            blocks.n() == n,
            1 <= b <= blocks.z,
            blocks.z <= rr || blocks.z <= 1,
            trans_in(&blocks, n as int, rr as int, tail@, label@, head@),
            cords.perm(),
            cords.sets(nt as int),
            cords.n() == nt,
            cords_by_label(&cords, label@),
            c <= cords.z,
            cords.z <= nt || cords.z <= 1,
            adj_ok(head@, n as int, af@, adj@),
            forall|x: int|
                0 <= x < n && b1.loc@[x] >= rr ==> #[trigger] blocks.loc@[x] == b1.loc@[x]
                    && blocks.set_of@[x] == 0,
            heads_split(&blocks, &cords, head@, b as int),
            tails_split(&blocks, &cords, tail@, label@, c as int, rr as int),
            finals_split(&blocks, fa, nf as int, rr as int),
            live_facts(fa, &b1, rr as int, tail@, label@, head@),
            blocks_respect(fa, &b1, &blocks, rr as int),
            cords_respect(fa, &cords, label@, head@),
            c > 0 ==> b == blocks.z,
            nf <= rr,
        decreases nt + 1 - c,
    {
        let ghost bc = blocks;
        split_by_cord(&mut blocks, &cords, &mut sc, c, &tail, &label, &head, Ghost(rr as int));
        proof {
            blocks.lemma_z_bound(rr as int);
            assert forall|t: int| 0 <= t < head@.len() implies #[trigger] head@[t] < bc.n() && bc.loc@[head@[t] as int] < rr by {
                assert(tail@[t] < n);
            }
            assert forall|x: int| 0 <= x < bc.n() && bc.loc@[x] < rr implies #[trigger] blocks.set_of@[x] == bc.set_of@[x]
                || blocks.set_of@[x] >= bc.z by {
                assert(blocks.loc@[x] < rr);
            }
            lemma_heads_after_cord(&bc, &blocks, &cords, head@, rr as int, b as int);
            lemma_tails_after_cord(&bc, &blocks, &cords, tail@, label@, head@, c as int, rr as int);
            lemma_finals_after_cord(&bc, &blocks, fa, nf as int, rr as int);
            lemma_blocks_after_cord(fa, &b1, rr as int, tail@, label@, head@, &bc, &blocks, &cords, c as int);
        }
        c = c + 1;
        while b < blocks.z
            invariant
                n == fa.q,
                nt == tail@.len(),
                nt == head@.len(),
                nt == label@.len(),
                1 <= n,
                rr <= n,
                n <= big,
                nt <= big,
                sc.clean(),
                sc.m@.len() == big + 1,
                blocks.perm(),
                blocks.sets(rr as int),
                blocks.n() == n,
                1 <= b <= blocks.z,
                blocks.z <= rr || blocks.z <= 1,
                cords.perm(),
                cords.sets(nt as int),
                cords.n() == nt,
                cords_by_label(&cords, label@),
                c <= cords.z,
                cords.z <= nt || cords.z <= 1,
                adj_ok(head@, n as int, af@, adj@),
                trans_in(&blocks, n as int, rr as int, tail@, label@, head@),
                heads_split(&blocks, &cords, head@, b as int),
                tails_split(&blocks, &cords, tail@, label@, c as int, rr as int),
                finals_split(&blocks, fa, nf as int, rr as int),
                live_facts(fa, &b1, rr as int, tail@, label@, head@),
                blocks_respect(fa, &b1, &blocks, rr as int),
                cords_respect(fa, &cords, label@, head@),
                c > 0,
                nf <= rr,
                forall|x: int|
                    0 <= x < n && b1.loc@[x] >= rr ==> #[trigger] blocks.loc@[x] == b1.loc@[x]
                        && blocks.set_of@[x] == 0,
            decreases rr + 1 - b,
        {
            assert forall|t: int| 0 <= t < head@.len() implies #[trigger] head@[t] < blocks.n()
                && blocks.loc@[head@[t] as int] < rr by {
                assert(tail@[t] < n);
            }
            let ghost cb = cords;
            split_by_block(&mut cords, &blocks, &mut sc, b, &head, &label, &af, &adj, Ghost(rr as int));
            proof {
                cords.lemma_z_bound(nt as int);
                lemma_heads_after_block(&blocks, &cb, &cords, head@, b as int);
                lemma_tails_after_block(&blocks, &cb, &cords, tail@, label@, c as int, rr as int);
                lemma_cords_after_block(fa, &b1, rr as int, tail@, label@, head@, &blocks, &cb, &cords, b as int);
            }
            b = b + 1;
        }
    }
    proof {
        lemma_prefix_same(&b1, &blocks, rr as int);
        assert forall|p: int, sym: i32|
            0 <= p < fa.q && #[trigger] fa.row(p).contains_key(sym) && fa.dests(p, sym).len() > 0 && blocks.loc@[fa.dests(
                p,
                sym,
            )[0] as int] < rr implies blocks.loc@[p] < rr && exists|t: int|
            #![trigger tail@[t]]
            0 <= t < tail@.len() && tail@[t] == p && label@[t] == sym && head@[t] == fa.dests(p, sym)[0] by {
            let h = fa.dests(p, sym)[0] as int;
            assert(h < fa.q);
            assert(b1.loc@[h] < rr);
            let t0 = choose|t0: int|
                #![trigger tail0@[t0]]
                0 <= t0 < tail0@.len() && tail0@[t0] == p && label0@[t0] == sym && head0@[t0] == fa.dests(p, sym)[0];
            assert(b1.loc@[head0@[t0] as int] < rr);
            assert(b1.loc@[tail0@[t0] as int] < rr);
            assert(b1.loc@[p] < rr);
        }
        assert forall|x: int| 0 <= x < fa.q && #[trigger] fa.accepting(x) implies blocks.loc@[x] < rr by {
            assert(b1.loc@[x] < nf);
        }
    }
    if blocks.loc[fa.q0] >= rr {
        let mut d: Vec<BTreeMap<i32, Vec<usize>>> = Vec::new();
        d.push(BTreeMap::new());
        let mut o: Vec<i32> = Vec::new();
        o.push(0);
        let m = Fa::with_states(0, 1, fa.alphabet_size, o, d);
        assert(m.o@ =~= seq![0i32]);
        proof {
            assert forall|w: Seq<i32>| #[trigger] accepts(&m, w) == accepts(fa, w) by {
                lemma_run_from_dead(&m, w);
                if accepts(fa, w) {
                    let s = run_from(fa, fa.q0 as int, w)->Some_0;
                    assert(blocks.loc@[s] < rr);
                    lemma_run_reached(fa, &blocks, rr as int, fa.q0 as int, w);
                }
            }
            assert forall|w: Seq<i32>| !#[trigger] accepts(fa, w) by {
                lemma_run_from_dead(&m, w);
                assert(accepts(&m, w) == accepts(fa, w));
            }
            assert(run_from(&m, m.q0 as int, Seq::<i32>::empty()) == Some(0int));
            assert(reachable(&m, 0));
        }
        return Ok(m);
    }
    let m = quotient(fa, &blocks, nf, &tail, &label, &head, Ghost(rr as int));
    proof {
        if nt == 0 {
            assert(heads_split(&blocks, &cords, head@, blocks.z as int));
        } else {
            assert(cords.owner(0) < cords.z);
        }
        assert(quotient_facts(fa, &m, &blocks, &cords, tail@, label@, head@, rr as int, nf as int));
        assert forall|w: Seq<i32>| #[trigger] accepts(&m, w) == accepts(fa, w) by {
            lemma_quotient_accepts(fa, &m, &blocks, &cords, tail@, label@, head@, rr as int, nf as int, w);
        }
        lemma_quotient_minimal(fa, &m, &b1, &blocks, &cords, tail@, label@, head@, rr as int, nf as int);
        lemma_start_accepts_some_word(fa, &b1, &blocks, rr as int, tail@, label@, head@);
        if forall|x: int| 0 <= x < fa.q ==> #[trigger] reachable(fa, x) {
            lemma_quotient_reachable(fa, &m, &blocks, &cords, tail@, label@, head@, rr as int, nf as int);
        }
    }
    Ok(m)
}

/// `k` distinct values in `0..bound` need `k <= bound`.
pub(crate) proof fn lemma_pigeonhole(k: int, bound: int, f: spec_fn(int) -> int)
    requires
        0 <= k,
        0 <= bound,
        forall|i: int| 0 <= i < k ==> 0 <= #[trigger] f(i) < bound,
        forall|i: int, j: int| 0 <= i < k && 0 <= j < k && i != j ==> #[trigger] f(i) != #[trigger] f(j),
    ensures
        k <= bound,
{
    if k > 0 {
        assert(0 <= f(0) < bound);
        let x = set_int_range(0, k);
        let y = x.map(f);
        lemma_int_range(0, k);
        lemma_int_range(0, bound);
        assert(injective_on(f, x)) by {
            assert forall|a: int, b: int| x.contains(a) && x.contains(b) && #[trigger] f(a) == #[trigger] f(b) implies a == b by {
                if a != b {
                    assert(f(a) != f(b));
                }
            }
        }
        lemma_map_size(x, y, f);
        assert(y.subset_of(set_int_range(0, bound))) by {
            assert forall|v: int| #[trigger] y.contains(v) implies set_int_range(0, bound).contains(v) by {
                let a = choose|a: int| x.contains(a) && f(a) == v;
                assert(0 <= f(a) < bound);
            }
        }
        lemma_len_subset(y, set_int_range(0, bound));
        assert(x.len() == k);
        assert(y.len() == k);
    }
}

/// Mark counts and the pending-set worklist, shared by both partitions.
struct Scratch {
    /// Number of currently-marked elements of each set.
    m: Vec<usize>,
    /// Stack of set ids with at least one mark pending.
    w: Vec<usize>,
}

impl Scratch {
    /// No marks anywhere and nothing pending.
    spec fn clean(&self) -> bool {
        &&& self.w@.len() == 0
        &&& forall|s: int| 0 <= s < self.m@.len() ==> #[trigger] self.m@[s] == 0
    }
}

/// A refinable partition of the positions `0..cover` of a permutation of `0..n`.
struct Partition {
    /// Number of sets.
    z: usize,
    /// Elements, grouped by set.
    elems: Vec<usize>,
    /// Location of each element within `elems`.
    loc: Vec<usize>,
    /// Set id of each element.
    set_of: Vec<usize>,
    /// First index (inclusive) of each set's run.
    first: Vec<usize>,
    /// Past-the-end index of each set's run.
    past: Vec<usize>,
}

impl Partition {
    spec fn n(&self) -> int {
        self.elems@.len() as int
    }

    /// The set of the element at position `pos`.
    spec fn owner(&self, pos: int) -> int {
        self.set_of@[self.elems@[pos] as int] as int
    }

    /// `elems` and `loc` are inverse permutations of `0..n`.
    spec fn perm(&self) -> bool {
        &&& self.loc@.len() == self.n()
        &&& self.set_of@.len() == self.n()
        &&& forall|i: int|
            0 <= i < self.n() ==> #[trigger] self.elems@[i] < self.n() && self.loc@[self.elems@[i] as int]
                == i
        &&& forall|e: int|
            0 <= e < self.n() ==> #[trigger] self.loc@[e] < self.n() && self.elems@[self.loc@[e] as int]
                == e
    }

    /// The sets `0..z` are contiguous runs that partition the positions `0..cover`,
    /// and all of them are nonempty unless there is a single set.
    spec fn sets(&self, cover: int) -> bool {
        &&& 0 <= cover <= self.n()
        &&& self.z <= self.first@.len()
        &&& cover <= self.first@.len()
        &&& self.first@.len() == self.past@.len()
        &&& forall|s: int| 0 <= s < self.z ==> #[trigger] self.first@[s] <= self.past@[s] <= cover
        &&& forall|s: int, pos: int|
            #![trigger self.first@[s], self.owner(pos)]
            0 <= s < self.z && self.first@[s] <= pos < self.past@[s] ==> self.owner(pos) == s
        &&& forall|pos: int|
            0 <= pos < cover ==> #[trigger] self.owner(pos) < self.z && self.first@[self.owner(pos)]
                <= pos < self.past@[self.owner(pos)]
        &&& (self.z <= 1 || forall|s: int| 0 <= s < self.z ==> #[trigger] self.first@[s] < self.past@[s])
    }

    /// How the shared scratch relates to this partition while it is being marked: each
    /// set's marked elements are the first `m[s]` of its run, and the sets with marks
    /// are exactly those on the worklist.
    spec fn marks_ok(&self, sc: &Scratch, cover: int) -> bool {
        &&& cover < sc.m@.len()
        &&& 1 < sc.m@.len()
        &&& self.z < sc.m@.len()
        &&& forall|s: int| 0 <= s < self.z ==> self.first@[s] + #[trigger] sc.m@[s] <= self.past@[s]
        &&& forall|s: int| self.z <= s < sc.m@.len() ==> #[trigger] sc.m@[s] == 0
        &&& forall|s: int| 0 <= s < sc.m@.len() ==> (#[trigger] sc.m@[s] > 0 <==> sc.w@.contains(s as usize))
        &&& sc.w@.no_duplicates()
        &&& forall|i: int| 0 <= i < sc.w@.len() ==> #[trigger] sc.w@[i] < self.z
    }

    /// The number of sets never exceeds the number of covered positions (or one).
    proof fn lemma_z_bound(&self, cover: int)
        requires
            self.perm(),
            self.sets(cover),
        ensures
            self.z <= cover || self.z <= 1,
    {
        if self.z > 1 {
            let f = |s: int| self.first@[s] as int;
            assert forall|i: int, j: int| 0 <= i < self.z && 0 <= j < self.z && i != j implies #[trigger] f(
                i,
            ) != #[trigger] f(j) by {
                assert(self.first@[i] < self.past@[i]);
                assert(self.first@[j] < self.past@[j]);
                assert(self.owner(self.first@[i] as int) == i);
                assert(self.owner(self.first@[j] as int) == j);
            }
            assert forall|i: int| 0 <= i < self.z implies 0 <= #[trigger] f(i) < cover by {
                assert(self.first@[i] < self.past@[i]);
            }
            lemma_pigeonhole(self.z as int, cover, f);
        }
    }

    /// One set over all of `0..n`, in identity order.
    fn init(n: usize) -> (p: Partition)
        ensures
            p.n() == n,
            p.perm(),
            p.sets(n as int),
            p.z == (if n != 0 { 1int } else { 0 }),
            p.first@.len() == n,
            p.past@.len() == n,
            forall|i: int| 0 <= i < n ==> #[trigger] p.first@[i] == 0,
            n > 0 ==> p.past@[0] == n,
            forall|i: int| 0 <= i < n ==> #[trigger] p.elems@[i] == i,
            forall|i: int| 0 <= i < n ==> #[trigger] p.set_of@[i] == 0,
    {
        let mut elems: Vec<usize> = Vec::new();
        let mut i: usize = 0;
        while i < n
            invariant
                i <= n,
                elems@.len() == i,
                forall|k: int| 0 <= k < i ==> #[trigger] elems@[k] == k,
            decreases n - i,
        {
            elems.push(i);
            i = i + 1;
        }
        let loc = elems.clone();
        let set_of: Vec<usize> = vec![0; n];
        let mut first: Vec<usize> = vec![0; n];
        let mut past: Vec<usize> = vec![0; n];
        let z: usize = if n != 0 { 1 } else { 0 };
        if z != 0 {
            past.set(0, n);
        }
        let p = Partition { z, elems, loc, set_of, first, past };
        assert forall|pos: int| 0 <= pos < n implies #[trigger] p.owner(pos) < p.z && p.first@[p.owner(
            pos,
        )] <= pos < p.past@[p.owner(pos)] by {
            assert(p.elems@[pos] == pos);
            assert(p.set_of@[pos] == 0);
        }
        assert forall|s: int, pos: int|
            #![trigger p.first@[s], p.owner(pos)]
            0 <= s < p.z && p.first@[s] <= pos < p.past@[s] implies p.owner(pos) == s by {
            assert(p.elems@[pos] == pos);
            assert(p.set_of@[pos] == 0);
        }
        p
    }

    /// Moves element `e` to the marked prefix of its set and, on the set's first mark,
    /// pushes the set onto the shared worklist.
    fn mark(&mut self, e: usize, sc: &mut Scratch, Ghost(cover): Ghost<int>)
        requires
            old(self).perm(),
            old(self).sets(cover),
            old(self).marks_ok(old(sc), cover),
            e < old(self).n(),
            old(self).loc@[e as int] < cover,
            old(self).loc@[e as int] >= old(self).first@[old(self).set_of@[e as int] as int] + old(
                sc,
            ).m@[old(self).set_of@[e as int] as int],
        ensures
            final(self).perm(),
            final(self).sets(cover),
            final(self).marks_ok(final(sc), cover),
            final(self).z == old(self).z,
            final(self).first == old(self).first,
            final(self).past == old(self).past,
            final(self).set_of == old(self).set_of,
            final(sc).m@.len() == old(sc).m@.len(),
            ({
                let s = old(self).set_of@[e as int] as int;
                let j = old(self).first@[s] + old(sc).m@[s];
                let i = old(self).loc@[e as int] as int;
                &&& final(sc).m@ == old(sc).m@.update(s, (old(sc).m@[s] + 1) as usize)
                &&& final(self).elems@ == old(self).elems@.update(i, old(self).elems@[j]).update(j, e)
                &&& final(self).loc@[e as int] == j
            }),
            forall|x: int|
                0 <= x < old(self).n() && old(self).loc@[x] >= cover ==> #[trigger] final(self).loc@[x]
                    == old(self).loc@[x],
            forall|x: int|
                0 <= x < old(self).n() && old(self).loc@[x] < cover ==> #[trigger] final(self).loc@[x]
                    < cover,
    {
        let ghost pre = *self;
        let mlen = sc.m.len();
        let s = self.set_of[e];
        let i = self.loc[e];
        assert(pre.owner(i as int) == s);
        let j = self.first[s] + sc.m[s];
        assert(j <= i);
        let ej = self.elems[j];
        assert(pre.owner(j as int) == s);
        self.elems.set(i, ej);
        self.loc.set(ej, i);
        self.elems.set(j, e);
        self.loc.set(e, j);
        let ghost w0 = sc.w@;
        let ghost m0 = sc.m@;
        if sc.m[s] == 0 {
            sc.w.push(s);
        }
        let ms = sc.m[s];
        sc.m.set(s, ms + 1);
        assert(sc.w@ == if m0[s as int] == 0 { w0.push(s) } else { w0 });
        assert(sc.m@ == m0.update(s as int, (m0[s as int] + 1) as usize));
        assert(self.elems@ == pre.elems@.update(i as int, ej).update(j as int, e));
        assert forall|k: int| 0 <= k < self.n() implies #[trigger] self.elems@[k] < self.n()
            && self.loc@[self.elems@[k] as int] == k by {
            if k == j as int {
            } else if k == i as int {
            } else {
                assert(self.elems@[k] == pre.elems@[k]);
                assert(pre.elems@[k] != e);
                assert(pre.elems@[k] != ej);
            }
        }
        assert forall|x: int| 0 <= x < self.n() implies #[trigger] self.loc@[x] < self.n()
            && self.elems@[self.loc@[x] as int] == x by {
            if x == e as int {
            } else if x == ej as int {
            } else {
                assert(self.loc@[x] == pre.loc@[x]);
                assert(pre.loc@[x] != i);
                assert(pre.loc@[x] != j);
            }
        }
        assert forall|pos: int| 0 <= pos < cover implies #[trigger] self.owner(pos) == pre.owner(pos) by {
            if pos == i as int {
            } else if pos == j as int {
            } else {
            }
        }
        assert forall|t: int| 0 <= t < sc.m@.len() implies (#[trigger] sc.m@[t] > 0 <==> sc.w@.contains(
            t as usize,
        )) by {
            assert(old(sc).m@[t] > 0 <==> old(sc).w@.contains(t as usize));
            assert(old(sc).m@ == m0);
            assert(old(sc).w@ == w0);
            if t == s as int {
                if m0[s as int] == 0 {
                    assert(sc.w@[w0.len() as int] == s);
                } else {
                    assert(w0.contains(s));
                }
                assert(sc.m@[t] > 0);
                assert(sc.w@.contains(t as usize));
            } else if m0[s as int] == 0 {
                assert(sc.m@[t] == m0[t]);
                if sc.w@.contains(t as usize) {
                    let k = choose|k: int| 0 <= k < sc.w@.len() && sc.w@[k] == t as usize;
                    if k < w0.len() {
                        assert(w0[k] == t as usize);
                        assert(w0.contains(t as usize));
                    } else {
                        assert(sc.w@[k] == s);
                    }
                    assert(sc.m@[t] > 0);
                }
                if w0.contains(t as usize) {
                    let k = choose|k: int| 0 <= k < w0.len() && w0[k] == t as usize;
                    assert(sc.w@[k] == t as usize);
                    assert(sc.w@.contains(t as usize));
                }
                if sc.m@[t] > 0 {
                    assert(w0.contains(t as usize));
                }
            } else {
                assert(sc.m@[t] == m0[t]);
                assert(sc.w@ == w0);
            }
        }
        assert(sc.w@.no_duplicates()) by {
            if m0[s as int] == 0 {
                assert(!w0.contains(s));
                assert forall|a: int, b: int| 0 <= a < sc.w@.len() && 0 <= b < sc.w@.len() && a != b implies sc.w@[a] != sc.w@[b] by {
                    if a < w0.len() && b < w0.len() {
                        assert(w0[a] != w0[b]);
                    } else if a < w0.len() {
                        assert(sc.w@[a] == w0[a]);
                    } else {
                        assert(sc.w@[b] == w0[b]);
                    }
                }
            }
        }
        assert forall|t: int, pos: int|
            #![trigger self.first@[t], self.owner(pos)]
            0 <= t < self.z && self.first@[t] <= pos < self.past@[t] implies self.owner(pos) == t by {
            assert(pre.first@[t] <= pos < pre.past@[t]);
            assert(pre.owner(pos) == t);
        }
        assert forall|k: int| 0 <= k < sc.w@.len() implies #[trigger] sc.w@[k] < self.z by {
            if k < old(sc).w@.len() {
                assert(sc.w@[k] == old(sc).w@[k]);
            }
        }
        assert forall|x: int| 0 <= x < pre.n() && pre.loc@[x] >= cover implies #[trigger] self.loc@[x]
            == pre.loc@[x] by {
            assert(x != e as int);
            assert(x != ej as int);
        }
    }

    /// Splits every marked set at its mark boundary, draining the worklist. The smaller
    /// half receives the fresh set id `z`.
    #[verifier::spinoff_prover]
    #[verifier::rlimit(100)]
    fn split(&mut self, sc: &mut Scratch, Ghost(cover): Ghost<int>)
        requires
            old(self).perm(),
            old(self).sets(cover),
            old(self).marks_ok(old(sc), cover),
        ensures
            final(self).perm(),
            final(self).sets(cover),
            final(self).marks_ok(final(sc), cover),
            final(sc).clean(),
            final(sc).m@.len() == old(sc).m@.len(),
            final(self).elems == old(self).elems,
            final(self).loc == old(self).loc,
            final(self).z >= old(self).z,
            forall|x: int|
                0 <= x < old(self).n() && old(self).loc@[x] >= cover ==> #[trigger] final(self).set_of@[x]
                    == old(self).set_of@[x],
            forall|x: int, y: int|
                0 <= x < old(self).n() && 0 <= y < old(self).n() && old(self).loc@[x] < cover
                    && old(self).loc@[y] < cover && #[trigger] final(self).set_of@[x]
                    == #[trigger] final(self).set_of@[y] ==> old(self).set_of@[x] == old(
                    self,
                ).set_of@[y] && premarked(old(self), old(sc).m@, x) == premarked(old(self), old(sc).m@, y),
            forall|x: int|
                0 <= x < old(self).n() && old(self).loc@[x] < cover ==> #[trigger] final(self).set_of@[x]
                    == old(self).set_of@[x] || final(self).set_of@[x] >= old(self).z,
            forall|x: int, y: int| #[trigger] kept_together(final(self), old(self), old(sc).m@, cover, x, y),
    {
        let ghost pre = *self;
        let ghost m0 = sc.m@;
        let ghost mut tag: Seq<bool> = Seq::new(self.z as nat, |t: int| false);
        let ghost mut origin: Seq<int> = Seq::new(self.z as nat, |t: int| t);
        assert forall|x: int| 0 <= x < pre.n() && pre.loc@[x] < cover implies split_tag_ok(self, sc.m@, &pre, m0, tag, x) by {
            assert(pre.elems@[pre.loc@[x] as int] == x);
            assert(pre.owner(pre.loc@[x] as int) < pre.z);
        }
        assert forall|x: int| 0 <= x < pre.n() && pre.loc@[x] < cover implies pre.set_of@[x] == origin[#[trigger] self.set_of@[x] as int] by {
            assert(pre.elems@[pre.loc@[x] as int] == x);
            assert(pre.owner(pre.loc@[x] as int) < pre.z);
        }
        while sc.w.len() > 0
            invariant
                self.perm(),
                self.sets(cover),
                self.marks_ok(sc, cover),
                sc.m@.len() == old(sc).m@.len(),
                self.elems == pre.elems,
                self.loc == pre.loc,
                self.z >= pre.z,
                origin.len() == self.z,
                forall|x: int|
                    0 <= x < pre.n() && pre.loc@[x] >= cover ==> #[trigger] self.set_of@[x]
                        == pre.set_of@[x],
                forall|x: int|
                    0 <= x < pre.n() && pre.loc@[x] < cover ==> pre.set_of@[x] == origin[#[trigger] self.set_of@[x] as int],
                tag.len() == self.z,
                forall|x: int|
                    0 <= x < pre.n() && pre.loc@[x] < cover ==> split_tag_ok(self, sc.m@, &pre, m0, tag, x),
                forall|x: int, y: int| #[trigger] kept_together(self, &pre, m0, cover, x, y),
            decreases sc.w@.len(),
        {
            let ghost before = *self;
            let ghost wb = sc.w@;
            let ghost mb = sc.m@;
            let ghost tag_b = tag;
            let s = sc.w.pop().unwrap();
            assert(wb == sc.w@.push(s));
            assert(wb.last() == s);
            assert(!sc.w@.contains(s)) by {
                if sc.w@.contains(s) {
                    let k = choose|k: int| 0 <= k < sc.w@.len() && sc.w@[k] == s;
                    assert(wb[k] == wb[wb.len() - 1]);
                }
            }
            assert(wb[wb.len() - 1] == s);
            assert(s < self.z);
            let j = self.first[s] + sc.m[s];
            let mlen = sc.m.len();
            if j == self.past[s] {
                sc.m.set(s, 0);
                proof {
                    tag = tag_b.update(s as int, true);
                    assert forall|x: int| 0 <= x < pre.n() && pre.loc@[x] < cover implies split_tag_ok(
                        self,
                        sc.m@,
                        &pre,
                        m0,
                        tag,
                        x,
                    ) by {
                        assert(split_tag_ok(self, mb, &pre, m0, tag_b, x));
                        assert(self.elems@[self.loc@[x] as int] == x);
                        assert(self.owner(self.loc@[x] as int) < self.z);
                    }
                }
            } else {
                let z = self.z;
                proof {
                    before.lemma_z_bound(cover);
                    assert(sc.m@[s as int] > 0) by {
                        assert(wb.contains(s));
                    }
                    let f = |t: int| if t == z as int { j as int } else { self.first@[t] as int };
                    assert forall|a: int, b: int| 0 <= a < z + 1 && 0 <= b < z + 1 && a != b implies #[trigger] f(a)
                        != #[trigger] f(b) by {
                        if a < z && b < z {
                            assert(self.first@[a] < self.past@[a]);
                            assert(self.first@[b] < self.past@[b]);
                            assert(self.owner(self.first@[a] as int) == a);
                            assert(self.owner(self.first@[b] as int) == b);
                        } else if a == z {
                            assert(self.owner(j as int) == s);
                            assert(self.first@[b] < self.past@[b]);
                            assert(self.owner(self.first@[b] as int) == b);
                        } else {
                            assert(self.owner(j as int) == s);
                            assert(self.first@[a] < self.past@[a]);
                            assert(self.owner(self.first@[a] as int) == a);
                        }
                    }
                    assert forall|a: int| 0 <= a < z + 1 implies 0 <= #[trigger] f(a) < cover by {
                        if a < z {
                            assert(self.first@[a] < self.past@[a]);
                        }
                    }
                    lemma_pigeonhole(z + 1, cover, f);
                }
                let fs = self.first[s];
                let ps = self.past[s];
                if sc.m[s] <= ps - j {
                    self.first.set(z, fs);
                    self.past.set(z, j);
                    self.first.set(s, j);
                } else {
                    self.past.set(z, ps);
                    self.first.set(z, j);
                    self.past.set(s, j);
                }
                let lo = self.first[z];
                let hi = self.past[z];
                let ghost mid = *self;
                #[verifier::loop_isolation(false)]
                for i in lo..hi
                    invariant
                        self.perm(),
                        self.elems == mid.elems,
                        self.loc == mid.loc,
                        self.first == mid.first,
                        self.past == mid.past,
                        self.z == mid.z,
                        lo <= hi <= cover,
                        cover <= self.n(),
                        forall|x: int|
                            0 <= x < self.n() ==> #[trigger] self.set_of@[x] == if lo <= self.loc@[x] < i {
                                z
                            } else {
                                mid.set_of@[x]
                            },
                {
                    let el = self.elems[i];
                    self.set_of.set(el, z);
                }
                sc.m.set(s, 0);
                sc.m.set(z, 0);
                self.z = z + 1;
                proof {
                    let zmarked = mb[s as int] <= ps - j;
                    tag = tag_b.update(s as int, !zmarked).push(zmarked);
                    assert(mb[z as int] == 0);
                    assert forall|x: int| 0 <= x < pre.n() && pre.loc@[x] < cover implies split_tag_ok(
                        self,
                        sc.m@,
                        &pre,
                        m0,
                        tag,
                        x,
                    ) by {
                        assert(split_tag_ok(&before, mb, &pre, m0, tag_b, x));
                        assert(before.elems@[before.loc@[x] as int] == x);
                        let o = before.owner(before.loc@[x] as int);
                        assert(o < z);
                        assert(before.first@[o] <= before.loc@[x] < before.past@[o]);
                        if o != s as int {
                            assert(!(lo <= self.loc@[x] < hi));
                        }
                    }
                    let ghost origin0 = origin;
                    let os = origin[s as int];
                    origin = origin.push(os);
                    assert(before.first@[s as int] <= lo && hi <= before.past@[s as int]);
                    // runs: new set z is [lo, hi), s keeps the rest of its old run
                    assert forall|pos: int| 0 <= pos < cover implies #[trigger] self.owner(pos) == if lo <= pos
                        < hi {
                        z as int
                    } else {
                        before.owner(pos)
                    } by {
                        assert(self.loc@[self.elems@[pos] as int] == pos);
                    }
                    assert forall|pos: int| 0 <= pos < cover implies #[trigger] self.owner(pos) < self.z
                        && self.first@[self.owner(pos)] <= pos < self.past@[self.owner(pos)] by {
                        let o = before.owner(pos);
                        if lo <= pos < hi {
                        } else if o == s as int {
                        } else {
                            assert(before.first@[o] <= pos < before.past@[o]);
                        }
                    }
                    assert forall|t: int, pos: int|
                        #![trigger self.first@[t], self.owner(pos)]
                        0 <= t < self.z && self.first@[t] <= pos < self.past@[t] implies self.owner(pos)
                            == t by {
                        if t == z as int {
                        } else if t == s as int {
                            assert(before.first@[t] <= pos < before.past@[t]);
                            assert(before.owner(pos) == t);
                        } else {
                            assert(before.first@[t] <= pos < before.past@[t]);
                            assert(before.owner(pos) == t);
                        }
                    }
                    assert forall|t: int| 0 <= t < self.z implies #[trigger] self.first@[t] <= self.past@[t]
                        <= cover by {
                        if t < z {
                            assert(before.first@[t] <= before.past@[t] <= cover);
                        }
                    }
                    if self.z > 1 {
                        assert forall|t: int| 0 <= t < self.z implies #[trigger] self.first@[t]
                            < self.past@[t] by {
                            if t < z && t != s {
                                if z > 1 {
                                    assert(before.first@[t] < before.past@[t]);
                                } else {
                                    assert(t == 0);
                                    assert(s == 0);
                                }
                            }
                        }
                    }
                    assert forall|x: int|
                        0 <= x < pre.n() && pre.loc@[x] < cover implies pre.set_of@[x]
                        == origin[#[trigger] self.set_of@[x] as int] by {
                        assert(self.elems@[self.loc@[x] as int] == x);
                        assert(before.owner(self.loc@[x] as int) < z);
                        if lo <= self.loc@[x] < hi {
                            assert(before.owner(self.loc@[x] as int) == s);
                            assert(origin[z as int] == origin0[s as int]);
                        } else {
                            assert(self.set_of@[x] == before.set_of@[x]);
                            assert(origin[self.set_of@[x] as int] == origin0[self.set_of@[x] as int]);
                        }
                    }
                    assert forall|x: int| 0 <= x < pre.n() && pre.loc@[x] >= cover implies #[trigger] self.set_of@[x]
                        == pre.set_of@[x] by {
                    }
                    assert forall|x: int, y: int| #[trigger] kept_together(self, &pre, m0, cover, x, y) by {
                        assert(kept_together(&before, &pre, m0, cover, x, y));
                        if 0 <= x < pre.n() && 0 <= y < pre.n() && pre.loc@[x] < cover && pre.loc@[y] < cover
                            && pre.set_of@[x] == pre.set_of@[y] && premarked(&pre, m0, x) == premarked(&pre, m0, y) {
                            assert(split_tag_ok(&before, mb, &pre, m0, tag_b, x));
                            assert(split_tag_ok(&before, mb, &pre, m0, tag_b, y));
                            assert(before.elems@[before.loc@[x] as int] == x);
                            assert(before.elems@[before.loc@[y] as int] == y);
                            let ox = before.owner(before.loc@[x] as int);
                            let oy = before.owner(before.loc@[y] as int);
                            assert(before.first@[ox] <= before.loc@[x] < before.past@[ox]);
                            assert(before.first@[oy] <= before.loc@[y] < before.past@[oy]);
                            if ox == s as int {
                                assert(mb[s as int] > 0);
                                assert(premarked(&pre, m0, x) <==> before.loc@[x] < j);
                                assert(premarked(&pre, m0, y) <==> before.loc@[y] < j);
                            } else {
                                assert(!(lo <= self.loc@[x] < hi));
                                assert(!(lo <= self.loc@[y] < hi));
                            }
                        }
                    }
                }
            }
            proof {
                assert forall|t: int| 0 <= t < sc.m@.len() implies (#[trigger] sc.m@[t] > 0 <==> sc.w@.contains(
                    t as usize,
                )) by {
                    if t != s as int {
                        assert(sc.w@.contains(t as usize) <==> wb.contains(t as usize)) by {
                            if sc.w@.contains(t as usize) {
                                let k = choose|k: int| 0 <= k < sc.w@.len() && sc.w@[k] == t as usize;
                                assert(wb[k] == sc.w@[k]);
                            }
                            if wb.contains(t as usize) {
                                let k = choose|k: int| 0 <= k < wb.len() && wb[k] == t as usize;
                                assert(k != wb.len() - 1);
                                assert(sc.w@[k] == wb[k]);
                            }
                        }
                        if t < before.z {
                            assert(sc.m@[t] == mb[t]);
                        } else {
                            assert(sc.m@[t] == 0);
                            if wb.contains(t as usize) {
                                let k = choose|k: int| 0 <= k < wb.len() && wb[k] == t as usize;
                                assert(wb[k] < before.z);
                            }
                        }
                    }
                }
                assert forall|k: int| 0 <= k < sc.w@.len() implies #[trigger] sc.w@[k] < self.z by {
                    assert(wb[k] == sc.w@[k]);
                }
                assert forall|t: int| 0 <= t < self.z implies self.first@[t] + #[trigger] sc.m@[t]
                    <= self.past@[t] by {
                }
            }
        }
        proof {
            assert forall|t: int| 0 <= t < sc.m@.len() implies #[trigger] sc.m@[t] == 0 by {
                if sc.m@[t] > 0 {
                    assert(sc.w@.contains(t as usize));
                }
            }
            assert forall|x: int, y: int|
                0 <= x < pre.n() && 0 <= y < pre.n() && pre.loc@[x] < cover && pre.loc@[y] < cover
                    && #[trigger] self.set_of@[x] == #[trigger] self.set_of@[y] implies pre.set_of@[x]
                == pre.set_of@[y] && premarked(&pre, m0, x) == premarked(&pre, m0, y) by {
                assert(split_tag_ok(self, sc.m@, &pre, m0, tag, x));
                assert(split_tag_ok(self, sc.m@, &pre, m0, tag, y));
                assert(self.elems@[self.loc@[x] as int] == x);
                assert(self.owner(self.loc@[x] as int) < self.z);
                assert(sc.m@[self.set_of@[x] as int] == 0);
            }
            assert forall|x: int| 0 <= x < pre.n() && pre.loc@[x] < cover implies #[trigger] self.set_of@[x]
                == pre.set_of@[x] || self.set_of@[x] >= pre.z by {
                assert(split_tag_ok(self, sc.m@, &pre, m0, tag, x));
            }
        }
    }
}


/// Element `x` lies among the first `m[s]` positions of the run of its set `s`.
spec fn premarked(p: &Partition, m: Seq<usize>, x: int) -> bool {
    p.loc@[x] < p.first@[p.set_of@[x] as int] + m[p.set_of@[x] as int]
}

/// Two elements of one set of `pre` that the marks `m0` treat alike share a set in `cur`.
spec fn kept_together(cur: &Partition, pre: &Partition, m0: Seq<usize>, cover: int, x: int, y: int) -> bool {
    (0 <= x < pre.n() && 0 <= y < pre.n() && pre.loc@[x] < cover && pre.loc@[y] < cover && pre.set_of@[x]
        == pre.set_of@[y] && premarked(pre, m0, x) == premarked(pre, m0, y)) ==> cur.set_of@[x] == cur.set_of@[y]
}

/// While a partition `cur` is being split by the marks `m0` that `pre` carried: a set
/// with no marks left holds only elements that were marked (or only unmarked ones),
/// as `tag` records; a set still marked holds its marked elements at the front of its
/// run; and every element kept its set or moved to a set created since.
spec fn split_tag_ok(cur: &Partition, m: Seq<usize>, pre: &Partition, m0: Seq<usize>, tag: Seq<bool>, x: int) -> bool {
    let t = cur.set_of@[x] as int;
    &&& (m[t] == 0 ==> premarked(pre, m0, x) == tag[t])
    &&& (m[t] > 0 ==> (premarked(pre, m0, x) <==> cur.loc@[x] < cur.first@[t] + m[t]))
    &&& (cur.set_of@[x] == pre.set_of@[x] || cur.set_of@[x] >= pre.z)
}

/// A clean scratch is consistent with any partition it is large enough for.
proof fn lemma_clean_marks_ok(p: &Partition, sc: &Scratch, cover: int)
    requires
        p.perm(),
        p.sets(cover),
        sc.clean(),
        cover < sc.m@.len(),
        1 < sc.m@.len(),
    ensures
        p.marks_ok(sc, cover),
{
    p.lemma_z_bound(cover);
}

/// The transitions: `n` states, each transition's tail and head in the reached prefix
/// `elems[..rr]` of `blocks`, and no two transitions with the same tail and label.
spec fn trans_in(blocks: &Partition, n: int, rr: int, tail: Seq<usize>, label: Seq<i32>, head: Seq<usize>) -> bool {
    &&& label.len() == tail.len()
    &&& head.len() == tail.len()
    &&& forall|t: int|
        0 <= t < tail.len() ==> #[trigger] tail[t] < n && head[t] < n && blocks.loc@[tail[t] as int] < rr
            && blocks.loc@[head[t] as int] < rr
    &&& forall|t1: int, t2: int|
        0 <= t1 < tail.len() && 0 <= t2 < tail.len() && t1 != t2 && #[trigger] tail[t1] == #[trigger] tail[t2]
            ==> label[t1] != label[t2]
}

/// Transitions in the same cord carry the same label.
spec fn cords_by_label(cords: &Partition, label: Seq<i32>) -> bool {
    forall|t1: int, t2: int|
        0 <= t1 < label.len() && 0 <= t2 < label.len() && #[trigger] cords.set_of@[t1]
            == #[trigger] cords.set_of@[t2] ==> label[t1] == label[t2]
}

/// Every marked state is the tail of a transition at a position in `cf..i` of the cords.
spec fn blocks_marked_by(blocks: &Partition, sc: &Scratch, cords: &Partition, tail: Seq<usize>, cf: int, i: int) -> bool {
    forall|s: int, pos: int|
        #![trigger blocks.first@[s], blocks.elems@[pos]]
        0 <= s < blocks.z && blocks.first@[s] <= pos < blocks.first@[s] + sc.m@[s] ==> exists|i2: int|
            #![trigger cords.elems@[i2]]
            cf <= i2 < i && tail[cords.elems@[i2] as int] == blocks.elems@[pos]
}

/// Two reached elements of one block that are tails of cord `c` alike share a block in
/// `cur`.
spec fn block_kept(cur: &Partition, pre: &Partition, cords: &Partition, tail: Seq<usize>, c: int, rr: int, x: int, y: int) -> bool {
    (0 <= x < pre.n() && 0 <= y < pre.n() && pre.loc@[x] < rr && pre.loc@[y] < rr && pre.set_of@[x] == pre.set_of@[y]
        && cord_tail(cords, tail, c, x) == cord_tail(cords, tail, c, y)) ==> cur.set_of@[x] == cur.set_of@[y]
}

/// Two transitions of one cord whose heads lie alike in or out of block `b` share a
/// cord in `cur`.
spec fn cord_kept(cur: &Partition, pre: &Partition, blocks: &Partition, head: Seq<usize>, b: int, t1: int, t2: int) -> bool {
    (0 <= t1 < head.len() && 0 <= t2 < head.len() && pre.set_of@[t1] == pre.set_of@[t2] && (blocks.set_of@[head[t1] as int]
        == b) == (blocks.set_of@[head[t2] as int] == b)) ==> cur.set_of@[t1] == cur.set_of@[t2]
}

/// Element `x` is the tail of some transition in cord `c`.
spec fn cord_tail(cords: &Partition, tail: Seq<usize>, c: int, x: int) -> bool {
    exists|t: int| #![trigger tail[t]] 0 <= t < tail.len() && cords.set_of@[t] == c && tail[t] == x
}

/// Marks the tails of the transitions in cord `c` and splits the blocks by them.
#[verifier::rlimit(60)]
fn split_by_cord(
    blocks: &mut Partition,
    cords: &Partition,
    sc: &mut Scratch,
    c: usize,
    tail: &Vec<usize>,
    label: &Vec<i32>,
    head: &Vec<usize>,
    Ghost(rr): Ghost<int>,
)
    requires
        old(blocks).perm(),
        old(blocks).sets(rr),
        old(sc).clean(),
        rr < old(sc).m@.len(),
        1 < old(sc).m@.len(),
        trans_in(old(blocks), old(blocks).n(), rr, tail@, label@, head@),
        cords.perm(),
        cords.n() == tail@.len(),
        cords.sets(tail@.len() as int),
        cords_by_label(cords, label@),
        c < cords.z,
    ensures
        final(blocks).perm(),
        final(blocks).sets(rr),
        final(sc).clean(),
        final(sc).m@.len() == old(sc).m@.len(),
        final(blocks).n() == old(blocks).n(),
        final(blocks).z >= old(blocks).z,
        trans_in(final(blocks), old(blocks).n(), rr, tail@, label@, head@),
        forall|x: int|
            0 <= x < old(blocks).n() && old(blocks).loc@[x] >= rr ==> #[trigger] final(blocks).loc@[x]
                == old(blocks).loc@[x] && final(blocks).set_of@[x] == old(blocks).set_of@[x],
        forall|x: int|
            0 <= x < old(blocks).n() && old(blocks).loc@[x] < rr ==> #[trigger] final(blocks).loc@[x] < rr
                && (final(blocks).set_of@[x] == old(blocks).set_of@[x] || final(blocks).set_of@[x] >= old(
                blocks,
            ).z),
        forall|x: int, y: int|
            0 <= x < old(blocks).n() && 0 <= y < old(blocks).n() && old(blocks).loc@[x] < rr && old(
                blocks,
            ).loc@[y] < rr && #[trigger] final(blocks).set_of@[x] == #[trigger] final(blocks).set_of@[y]
                ==> old(blocks).set_of@[x] == old(blocks).set_of@[y] && cord_tail(cords, tail@, c as int, x)
                == cord_tail(cords, tail@, c as int, y),
        forall|x: int|
            0 <= x < old(blocks).n() && old(blocks).loc@[x] < rr ==> old(blocks).first@[old(blocks).set_of@[x] as int]
                <= #[trigger] final(blocks).loc@[x] < old(blocks).past@[old(blocks).set_of@[x] as int],
        forall|x: int, y: int| #[trigger] block_kept(final(blocks), old(blocks), cords, tail@, c as int, rr, x, y),
{
    let ghost b0 = *blocks;
    let ghost n = b0.n();
    let cf = cords.first[c];
    let cp = cords.past[c];
    proof {
        lemma_clean_marks_ok(blocks, sc, rr);
    }
    let mut i: usize = cf;
    while i < cp
        invariant
            cords.perm(),
            cords.n() == tail@.len(),
            cords.sets(tail@.len() as int),
            cords_by_label(cords, label@),
            c < cords.z,
            cords.first@[c as int] == cf,
            cords.past@[c as int] == cp,
            cf <= i <= cp,
            cp <= tail@.len(),
            blocks.perm(),
            blocks.sets(rr),
            blocks.marks_ok(sc, rr),
            blocks.n() == n,
            blocks.z == b0.z,
            blocks.first == b0.first,
            blocks.past == b0.past,
            blocks.set_of == b0.set_of,
            sc.m@.len() == old(sc).m@.len(),
            trans_in(blocks, n, rr, tail@, label@, head@),
            blocks_marked_by(blocks, sc, cords, tail@, cf as int, i as int),
            forall|x: int|
                0 <= x < n && b0.loc@[x] >= rr ==> #[trigger] blocks.loc@[x] == b0.loc@[x],
            forall|x: int| 0 <= x < n && b0.loc@[x] < rr ==> #[trigger] blocks.loc@[x] < rr,
            forall|i2: int| cf <= i2 < i ==> premarked(blocks, sc.m@, #[trigger] tail@[cords.elems@[i2] as int] as int),
        decreases cp - i,
    {
        let t = cords.elems[i];
        let e = tail[t];
        let ghost pre = *blocks;
        let ghost m0 = sc.m@;
        proof {
            let s = blocks.set_of@[e as int] as int;
            let li = blocks.loc@[e as int] as int;
            assert(blocks.owner(li) == s);
            assert(blocks.first@[s] <= li);
            if li < blocks.first@[s] + sc.m@[s] {
                assert(blocks.elems@[li] == e);
                let i2 = choose|i2: int|
                    #![trigger cords.elems@[i2]]
                    cf <= i2 < i && tail@[cords.elems@[i2] as int] == blocks.elems@[li];
                let t2 = cords.elems@[i2] as int;
                assert(cords.owner(i2) == c);
                assert(cords.owner(i as int) == c);
                assert(cords.loc@[t2] == i2);
                assert(t2 != t);
                assert(label@[t2] == label@[t as int]);
                assert(false);
            }
        }
        blocks.mark(e, sc, Ghost(rr));
        proof {
            let s = pre.set_of@[e as int] as int;
            let j = pre.first@[s] + m0[s];
            let li = pre.loc@[e as int] as int;
            assert(pre.owner(j) == s);
            assert(pre.owner(li) == s);
            assert forall|s2: int, pos: int|
                #![trigger blocks.first@[s2], blocks.elems@[pos]]
                0 <= s2 < blocks.z && blocks.first@[s2] <= pos < blocks.first@[s2] + sc.m@[s2] implies exists|i2: int|
                    #![trigger cords.elems@[i2]]
                    cf <= i2 < i + 1 && tail@[cords.elems@[i2] as int] == blocks.elems@[pos] by {
                if pos == j {
                    assert(blocks.elems@[pos] == e);
                    assert(tail@[cords.elems@[i as int] as int] == blocks.elems@[pos]);
                } else {
                    if s2 == s {
                        assert(pos < j);
                    } else {
                        assert(sc.m@[s2] == m0[s2]);
                        assert(pre.owner(pos) == s2);
                    }
                    assert(pos != li);
                    assert(blocks.elems@[pos] == pre.elems@[pos]);
                    assert(pre.first@[s2] <= pos < pre.first@[s2] + m0[s2]);
                    let i2 = choose|i2: int|
                        #![trigger cords.elems@[i2]]
                        cf <= i2 < i && tail@[cords.elems@[i2] as int] == pre.elems@[pos];
                    assert(cf <= i2 < i + 1);
                }
            }
            assert forall|t3: int| 0 <= t3 < tail@.len() implies #[trigger] tail@[t3] < n && head@[t3] < n
                && blocks.loc@[tail@[t3] as int] < rr && blocks.loc@[head@[t3] as int] < rr by {
                assert(pre.loc@[tail@[t3] as int] < rr);
                assert(pre.loc@[head@[t3] as int] < rr);
            }
            assert forall|i2: int| cf <= i2 < i + 1 implies premarked(
                blocks,
                sc.m@,
                #[trigger] tail@[cords.elems@[i2] as int] as int,
            ) by {
                let x = tail@[cords.elems@[i2] as int] as int;
                if x != e as int {
                    assert(premarked(&pre, m0, x));
                    assert(cords.elems@[i2] < tail@.len());
                    assert(x < n);
                    assert(pre.elems@[pre.loc@[x] as int] == x);
                    assert(pre.owner(pre.loc@[x] as int) < pre.z);
                    assert(pre.loc@[x] != li);
                    assert(pre.loc@[x] != j);
                    assert(blocks.elems@[pre.loc@[x] as int] == x);
                    assert(blocks.loc@[x] == pre.loc@[x]);
                }
            }
        }
        i = i + 1;
    }
    let ghost bm = *blocks;
    let ghost mm = sc.m@;
    proof {
        assert forall|x: int| 0 <= x < n && bm.loc@[x] < rr implies premarked(&bm, mm, x) == cord_tail(
            cords,
            tail@,
            c as int,
            x,
        ) by {
            assert(bm.elems@[bm.loc@[x] as int] == x);
            assert(bm.owner(bm.loc@[x] as int) < bm.z);
            if premarked(&bm, mm, x) {
                let s2 = bm.set_of@[x] as int;
                let pos = bm.loc@[x] as int;
                assert(bm.first@[s2] <= pos);
                let i2 = choose|i2: int|
                    #![trigger cords.elems@[i2]]
                    cf <= i2 < cp && tail@[cords.elems@[i2] as int] == bm.elems@[pos];
                assert(cords.owner(i2) == c);
                assert(tail@[cords.elems@[i2] as int] == x);
            }
            if cord_tail(cords, tail@, c as int, x) {
                let t = choose|t: int| #![trigger tail@[t]] 0 <= t < tail@.len() && cords.set_of@[t] == c && tail@[t] == x;
                let i2 = cords.loc@[t] as int;
                assert(cords.elems@[i2] == t);
                assert(cords.owner(i2) == c);
                assert(premarked(&bm, mm, tail@[cords.elems@[i2] as int] as int));
            }
        }
    }
    blocks.split(sc, Ghost(rr));
    proof {
        assert forall|x: int, y: int|
            0 <= x < n && 0 <= y < n && b0.loc@[x] < rr && b0.loc@[y] < rr && #[trigger] blocks.set_of@[x]
                == #[trigger] blocks.set_of@[y] implies b0.set_of@[x] == b0.set_of@[y] && cord_tail(
            cords,
            tail@,
            c as int,
            x,
        ) == cord_tail(cords, tail@, c as int, y) by {
            assert(bm.loc@[x] < rr);
            assert(bm.loc@[y] < rr);
            assert(premarked(&bm, mm, x) == cord_tail(cords, tail@, c as int, x));
            assert(premarked(&bm, mm, y) == cord_tail(cords, tail@, c as int, y));
        }
        assert forall|x: int, y: int| #[trigger] block_kept(blocks, &b0, cords, tail@, c as int, rr, x, y) by {
            assert(kept_together(blocks, &bm, mm, rr, x, y));
            if 0 <= x < n && 0 <= y < n && b0.loc@[x] < rr && b0.loc@[y] < rr {
                assert(bm.loc@[x] < rr);
                assert(bm.loc@[y] < rr);
                assert(premarked(&bm, mm, x) == cord_tail(cords, tail@, c as int, x));
                assert(premarked(&bm, mm, y) == cord_tail(cords, tail@, c as int, y));
            }
        }
        assert forall|x: int| 0 <= x < n && b0.loc@[x] < rr implies #[trigger] blocks.loc@[x] < rr && (
        blocks.set_of@[x] == b0.set_of@[x] || blocks.set_of@[x] >= b0.z) by {
            assert(bm.loc@[x] < rr);
        }
        assert forall|x: int| 0 <= x < n && b0.loc@[x] < rr implies b0.first@[b0.set_of@[x] as int]
            <= #[trigger] blocks.loc@[x] < b0.past@[b0.set_of@[x] as int] by {
            assert(bm.loc@[x] < rr);
            assert(bm.elems@[bm.loc@[x] as int] == x);
            assert(bm.owner(bm.loc@[x] as int) < bm.z);
        }
    }
}

/// Marking `e` moves it to the end of its set's marked prefix by a swap with the
/// first unmarked element, so every element marked before stays marked.
proof fn lemma_mark_keeps(pre: &Partition, m0: Seq<usize>, post: &Partition, m1: Seq<usize>, e: int, x: int, cover: int)
    requires
        pre.perm(),
        pre.sets(cover),
        post.perm(),
        0 <= e < pre.n(),
        0 <= x < pre.n(),
        x != e,
        pre.loc@[e] < cover,
        pre.loc@[x] < cover,
        pre.loc@[e] >= pre.first@[pre.set_of@[e] as int] + m0[pre.set_of@[e] as int],
        post.set_of == pre.set_of,
        post.first == pre.first,
        m0.len() == m1.len(),
        pre.z < m0.len(),
        m1 == m0.update(pre.set_of@[e] as int, (m0[pre.set_of@[e] as int] + 1) as usize),
        post.elems@ == pre.elems@.update(pre.loc@[e] as int, pre.elems@[pre.first@[pre.set_of@[e] as int] + m0[pre.set_of@[e] as int]]).update(
            pre.first@[pre.set_of@[e] as int] + m0[pre.set_of@[e] as int],
            e as usize,
        ),
        premarked(pre, m0, x),
    ensures
        premarked(post, m1, x),
{
    let s = pre.set_of@[e] as int;
    let j = pre.first@[s] + m0[s];
    let i = pre.loc@[e] as int;
    let px = pre.loc@[x] as int;
    let sx = pre.set_of@[x] as int;
    assert(pre.elems@[i] == e);
    assert(pre.elems@[px] == x);
    assert(pre.owner(i) == s);
    assert(pre.owner(px) == sx);
    assert(pre.first@[s] <= j <= i);
    assert(pre.owner(j) == s);
    assert(px != i);
    assert(px != j);
    assert(post.elems@[px] == x);
    assert(post.loc@[x] == px);
    assert(sx < pre.z);
    assert(s < pre.z);
    assert(m1[sx] >= m0[sx]);
}

/// Two transitions in the same cord whose heads lie in different blocks have a head in
/// a block numbered `b` or above.
spec fn heads_split(blocks: &Partition, cords: &Partition, head: Seq<usize>, b: int) -> bool {
    forall|t1: int, t2: int|
        0 <= t1 < head.len() && 0 <= t2 < head.len() && #[trigger] cords.set_of@[t1] == #[trigger] cords.set_of@[t2]
            && blocks.set_of@[head[t1] as int] != blocks.set_of@[head[t2] as int] ==> blocks.set_of@[head[t1] as int]
            >= b || blocks.set_of@[head[t2] as int] >= b
}

/// For every transition `t1` in a cord numbered below `c`, every reached state `y` in
/// the block of its tail has a transition with the same label, in the same cord or in a
/// cord numbered `c` or above.
spec fn tails_split(blocks: &Partition, cords: &Partition, tail: Seq<usize>, label: Seq<i32>, c: int, rr: int) -> bool {
    forall|t1: int, y: int|
        #![trigger cords.set_of@[t1], blocks.set_of@[y]]
        0 <= t1 < tail.len() && 0 <= y < blocks.n() && blocks.loc@[y] < rr && blocks.set_of@[y]
            == blocks.set_of@[tail[t1] as int] && cords.set_of@[t1] < c ==> exists|t2: int|
            #![trigger tail[t2]]
            0 <= t2 < tail.len() && tail[t2] == y && label[t2] == label[t1] && (cords.set_of@[t2] == cords.set_of@[t1]
                || cords.set_of@[t2] >= c)
}

/// No block straddles position `nf`, and a reached state accepts exactly when its block
/// starts below `nf`.
spec fn finals_split(blocks: &Partition, fa: &Fa, nf: int, rr: int) -> bool {
    &&& forall|s: int| 0 <= s < blocks.z && #[trigger] blocks.first@[s] < nf ==> blocks.past@[s] <= nf
    &&& forall|x: int|
        0 <= x < blocks.n() && blocks.loc@[x] < rr ==> (fa.accepting(x) <==> blocks.first@[#[trigger] blocks.set_of@[x] as int]
            < nf)
}

/// The first position of the block of a reached state holds a state of that block.
proof fn lemma_first_of_block(p: &Partition, rr: int, x: int)
    requires
        p.perm(),
        p.sets(rr),
        0 <= x < p.n(),
        p.loc@[x] < rr,
    ensures
        p.set_of@[x] < p.z,
        p.first@[p.set_of@[x] as int] <= p.loc@[x] < p.past@[p.set_of@[x] as int],
        p.set_of@[p.elems@[p.first@[p.set_of@[x] as int] as int] as int] == p.set_of@[x],
        p.elems@[p.first@[p.set_of@[x] as int] as int] < p.n(),
        p.loc@[p.elems@[p.first@[p.set_of@[x] as int] as int] as int] == p.first@[p.set_of@[x] as int],
{
    assert(p.elems@[p.loc@[x] as int] == x);
    assert(p.owner(p.loc@[x] as int) < p.z);
    let s = p.set_of@[x] as int;
    assert(p.owner(p.first@[s] as int) == s);
}

/// Splitting the blocks keeps the heads of each cord apart as before: a block that
/// splits keeps its number for one part and numbers the other from the old count on.
proof fn lemma_heads_after_cord(b0: &Partition, b1: &Partition, cords: &Partition, head: Seq<usize>, rr: int, b: int)
    requires
        heads_split(b0, cords, head, b),
        b <= b0.z,
        b0.n() == b1.n(),
        forall|t: int| 0 <= t < head.len() ==> #[trigger] head[t] < b0.n() && b0.loc@[head[t] as int] < rr,
        forall|x: int|
            0 <= x < b0.n() && b0.loc@[x] < rr ==> #[trigger] b1.set_of@[x] == b0.set_of@[x] || b1.set_of@[x] >= b0.z,
        forall|x: int, y: int|
            0 <= x < b0.n() && 0 <= y < b0.n() && b0.loc@[x] < rr && b0.loc@[y] < rr && #[trigger] b1.set_of@[x]
                == #[trigger] b1.set_of@[y] ==> b0.set_of@[x] == b0.set_of@[y],
    ensures
        heads_split(b1, cords, head, b),
{
    assert forall|t1: int, t2: int|
        0 <= t1 < head.len() && 0 <= t2 < head.len() && #[trigger] cords.set_of@[t1] == #[trigger] cords.set_of@[t2]
            && b1.set_of@[head[t1] as int] != b1.set_of@[head[t2] as int] implies b1.set_of@[head[t1] as int] >= b
        || b1.set_of@[head[t2] as int] >= b by {
        let x = head[t1] as int;
        let y = head[t2] as int;
        assert(x < b0.n() && y < b0.n());
        assert(b1.set_of@[x] == b0.set_of@[x] || b1.set_of@[x] >= b0.z);
        assert(b1.set_of@[y] == b0.set_of@[y] || b1.set_of@[y] >= b0.z);
    }
}

/// Splitting the blocks by the tails of cord `c` makes every block agree on cord `c`.
proof fn lemma_tails_after_cord(
    b0: &Partition,
    b1: &Partition,
    cords: &Partition,
    tail: Seq<usize>,
    label: Seq<i32>,
    head: Seq<usize>,
    c: int,
    rr: int,
)
    requires
        tails_split(b0, cords, tail, label, c, rr),
        trans_in(b0, b0.n(), rr, tail, label, head),
        cords_by_label(cords, label),
        cords.n() == tail.len(),
        cords.perm(),
        b0.n() == b1.n(),
        forall|x: int| 0 <= x < b0.n() && b0.loc@[x] >= rr ==> #[trigger] b1.loc@[x] == b0.loc@[x],
        forall|x: int, y: int|
            0 <= x < b0.n() && 0 <= y < b0.n() && b0.loc@[x] < rr && b0.loc@[y] < rr && #[trigger] b1.set_of@[x]
                == #[trigger] b1.set_of@[y] ==> b0.set_of@[x] == b0.set_of@[y] && cord_tail(cords, tail, c, x)
                == cord_tail(cords, tail, c, y),
    ensures
        tails_split(b1, cords, tail, label, c + 1, rr),
{
    assert forall|t1: int, y: int|
        #![trigger cords.set_of@[t1], b1.set_of@[y]]
        0 <= t1 < tail.len() && 0 <= y < b1.n() && b1.loc@[y] < rr && b1.set_of@[y] == b1.set_of@[tail[t1] as int]
            && cords.set_of@[t1] < c + 1 implies exists|t2: int|
            #![trigger tail[t2]]
            0 <= t2 < tail.len() && tail[t2] == y && label[t2] == label[t1] && (cords.set_of@[t2] == cords.set_of@[t1]
                || cords.set_of@[t2] >= c + 1) by {
        let x = tail[t1] as int;
        assert(x < b0.n() && b0.loc@[x] < rr);
        assert(b0.loc@[y] < rr);
        assert(b0.set_of@[y] == b0.set_of@[x]);
        assert(cord_tail(cords, tail, c, y) == cord_tail(cords, tail, c, x));
        if cords.set_of@[t1] == c {
            assert(cord_tail(cords, tail, c, x));
            let t2 = choose|t2: int| #![trigger tail[t2]] 0 <= t2 < tail.len() && cords.set_of@[t2] == c && tail[t2] == y;
            assert(label[t2] == label[t1]);
        } else {
            assert(cords.set_of@[t1] < c);
            let t2 = choose|t2: int|
                #![trigger tail[t2]]
                0 <= t2 < tail.len() && tail[t2] == y && label[t2] == label[t1] && (cords.set_of@[t2] == cords.set_of@[t1]
                    || cords.set_of@[t2] >= c);
            if cords.set_of@[t2] == c {
                assert(cord_tail(cords, tail, c, y));
                let t3 = choose|t3: int| #![trigger tail[t3]] 0 <= t3 < tail.len() && cords.set_of@[t3] == c && tail[t3] == x;
                assert(label[t3] == label[t2]);
                if t3 != t1 {
                    assert(tail[t3] == tail[t1]);
                    assert(label[t3] != label[t1]);
                }
                assert(false);
            }
        }
    }
}

/// Splitting the blocks inside their runs keeps every block on one side of `nf`.
proof fn lemma_finals_after_cord(b0: &Partition, b1: &Partition, fa: &Fa, nf: int, rr: int)
    requires
        finals_split(b0, fa, nf, rr),
        b0.perm(),
        b0.sets(rr),
        b1.perm(),
        b1.sets(rr),
        b0.n() == b1.n(),
        forall|x: int| 0 <= x < b0.n() && b0.loc@[x] >= rr ==> #[trigger] b1.loc@[x] == b0.loc@[x],
        forall|x: int|
            0 <= x < b0.n() && b0.loc@[x] < rr ==> b0.first@[b0.set_of@[x] as int] <= #[trigger] b1.loc@[x]
                < b0.past@[b0.set_of@[x] as int],
        forall|x: int, y: int|
            0 <= x < b0.n() && 0 <= y < b0.n() && b0.loc@[x] < rr && b0.loc@[y] < rr && #[trigger] b1.set_of@[x]
                == #[trigger] b1.set_of@[y] ==> b0.set_of@[x] == b0.set_of@[y],
    ensures
        finals_split(b1, fa, nf, rr),
{
    assert forall|x: int|
        0 <= x < b1.n() && b1.loc@[x] < rr implies (fa.accepting(x) <==> b1.first@[#[trigger] b1.set_of@[x] as int] < nf) by {
        assert(b0.loc@[x] < rr);
        lemma_first_of_block(b1, rr, x);
        lemma_first_of_block(b0, rr, x);
        let y = b1.elems@[b1.first@[b1.set_of@[x] as int] as int] as int;
        assert(b1.loc@[y] < rr);
        assert(b0.loc@[y] < rr);
        assert(b0.set_of@[y] == b0.set_of@[x]);
        assert(b0.first@[b0.set_of@[x] as int] <= b1.loc@[y] < b0.past@[b0.set_of@[x] as int]);
        assert(fa.accepting(x) <==> b0.first@[b0.set_of@[x] as int] < nf);
    }
    assert forall|s: int| 0 <= s < b1.z && #[trigger] b1.first@[s] < nf implies b1.past@[s] <= nf by {
        if b1.first@[s] < b1.past@[s] {
            let p0 = b1.first@[s] as int;
            let p1 = b1.past@[s] - 1;
            assert(b1.owner(p0) == s);
            assert(b1.owner(p1) == s);
            let y0 = b1.elems@[p0] as int;
            let y1 = b1.elems@[p1] as int;
            assert(b1.loc@[y0] == p0);
            assert(b1.loc@[y1] == p1);
            assert(b0.loc@[y0] < rr);
            assert(b0.loc@[y1] < rr);
            assert(b0.set_of@[y0] == b0.set_of@[y1]);
            lemma_first_of_block(b0, rr, y0);
            assert(b0.first@[b0.set_of@[y0] as int] <= p0);
            assert(b0.past@[b0.set_of@[y0] as int] <= nf);
            assert(p1 < b0.past@[b0.set_of@[y1] as int]);
        }
    }
}

/// Splitting the cords by the heads in block `b` makes every cord agree on block `b`.
proof fn lemma_heads_after_block(blocks: &Partition, c0: &Partition, c1: &Partition, head: Seq<usize>, b: int)
    requires
        heads_split(blocks, c0, head, b),
        forall|t1: int, t2: int|
            0 <= t1 < head.len() && 0 <= t2 < head.len() && #[trigger] c1.set_of@[t1] == #[trigger] c1.set_of@[t2]
                ==> c0.set_of@[t1] == c0.set_of@[t2] && (blocks.set_of@[head[t1] as int] == b) == (blocks.set_of@[head[t2] as int]
                == b),
    ensures
        heads_split(blocks, c1, head, b + 1),
{
    assert forall|t1: int, t2: int|
        0 <= t1 < head.len() && 0 <= t2 < head.len() && #[trigger] c1.set_of@[t1] == #[trigger] c1.set_of@[t2]
            && blocks.set_of@[head[t1] as int] != blocks.set_of@[head[t2] as int] implies blocks.set_of@[head[t1] as int]
        >= b + 1 || blocks.set_of@[head[t2] as int] >= b + 1 by {
        assert(c0.set_of@[t1] == c0.set_of@[t2]);
    }
}

/// Splitting the cords keeps what the processed cords say about the blocks: a cord
/// that splits keeps its number for one part and numbers the other from the old count
/// on.
proof fn lemma_tails_after_block(
    blocks: &Partition,
    c0: &Partition,
    c1: &Partition,
    tail: Seq<usize>,
    label: Seq<i32>,
    c: int,
    rr: int,
)
    requires
        tails_split(blocks, c0, tail, label, c, rr),
        c <= c0.z,
        forall|t: int| 0 <= t < tail.len() ==> #[trigger] c1.set_of@[t] == c0.set_of@[t] || c1.set_of@[t] >= c0.z,
    ensures
        tails_split(blocks, c1, tail, label, c, rr),
{
    assert forall|t1: int, y: int|
        #![trigger c1.set_of@[t1], blocks.set_of@[y]]
        0 <= t1 < tail.len() && 0 <= y < blocks.n() && blocks.loc@[y] < rr && blocks.set_of@[y]
            == blocks.set_of@[tail[t1] as int] && c1.set_of@[t1] < c implies exists|t2: int|
            #![trigger tail[t2]]
            0 <= t2 < tail.len() && tail[t2] == y && label[t2] == label[t1] && (c1.set_of@[t2] == c1.set_of@[t1]
                || c1.set_of@[t2] >= c) by {
        assert(c1.set_of@[t1] == c0.set_of@[t1]);
        assert(c0.set_of@[t1] < c);
        let t2 = choose|t2: int|
            #![trigger tail[t2]]
            0 <= t2 < tail.len() && tail[t2] == y && label[t2] == label[t1] && (c0.set_of@[t2] == c0.set_of@[t1]
                || c0.set_of@[t2] >= c);
        assert(c1.set_of@[t2] == c0.set_of@[t2] || c1.set_of@[t2] >= c0.z);
    }
}

/// The first split, by acceptance, leaves no block straddling `nf`.
proof fn lemma_finals_initial(b2: &Partition, b3: &Partition, m0: Seq<usize>, fa: &Fa, nf: int, rr: int)
    requires
        b2.perm(),
        b2.sets(rr),
        b2.z == 1,
        b3.perm(),
        b3.sets(rr),
        b3.elems == b2.elems,
        b3.loc == b2.loc,
        0 <= nf <= rr,
        m0.len() > 0,
        m0[0] == nf,
        forall|x: int| 0 <= x < b2.n() ==> (fa.accepting(x) <==> #[trigger] b2.loc@[x] < nf),
        forall|x: int, y: int|
            0 <= x < b2.n() && 0 <= y < b2.n() && b2.loc@[x] < rr && b2.loc@[y] < rr && #[trigger] b3.set_of@[x]
                == #[trigger] b3.set_of@[y] ==> premarked(b2, m0, x) == premarked(b2, m0, y),
    ensures
        finals_split(b3, fa, nf, rr),
{
    assert forall|x: int| 0 <= x < b2.n() && b2.loc@[x] < rr implies premarked(b2, m0, x) == fa.accepting(x) by {
        lemma_first_of_block(b2, rr, x);
        assert(b2.set_of@[x] == 0);
        assert(b2.first@[0] <= b2.loc@[x]);
        if b2.first@[0] > 0 {
            assert(b2.owner(0) < 1);
            assert(b2.first@[b2.owner(0)] <= 0);
        }
    }
    assert forall|x: int|
        0 <= x < b3.n() && b3.loc@[x] < rr implies (fa.accepting(x) <==> b3.first@[#[trigger] b3.set_of@[x] as int] < nf) by {
        lemma_first_of_block(b3, rr, x);
        let y = b3.elems@[b3.first@[b3.set_of@[x] as int] as int] as int;
        assert(premarked(b2, m0, y) == premarked(b2, m0, x));
    }
    assert forall|s: int| 0 <= s < b3.z && #[trigger] b3.first@[s] < nf implies b3.past@[s] <= nf by {
        if b3.first@[s] < b3.past@[s] {
            let p0 = b3.first@[s] as int;
            let p1 = b3.past@[s] - 1;
            assert(b3.owner(p0) == s);
            assert(b3.owner(p1) == s);
            let y0 = b3.elems@[p0] as int;
            let y1 = b3.elems@[p1] as int;
            assert(b3.loc@[y0] == p0);
            assert(b3.loc@[y1] == p1);
            assert(premarked(b2, m0, y0) == premarked(b2, m0, y1));
        }
    }
}

/// Transition `t` leads into a state at a position in `bf..p` of the blocks, or sits at
/// a position in `jlo..j` of `adj`.
spec fn cord_mark_ok(blocks: &Partition, head: Seq<usize>, adj: Seq<usize>, bf: int, p: int, jlo: int, j: int, t: int) -> bool {
    ||| exists|p2: int| #![trigger blocks.elems@[p2]] bf <= p2 < p && head[t] == blocks.elems@[p2]
    ||| exists|j2: int| #![trigger adj[j2]] jlo <= j2 < j && adj[j2] == t
}

/// Every marked transition satisfies [`cord_mark_ok`].
spec fn cords_marked_by(
    cords: &Partition,
    sc: &Scratch,
    blocks: &Partition,
    head: Seq<usize>,
    adj: Seq<usize>,
    bf: int,
    p: int,
    jlo: int,
    j: int,
) -> bool {
    forall|s: int, pos: int|
        #![trigger cords.first@[s], cords.elems@[pos]]
        0 <= s < cords.z && cords.first@[s] <= pos < cords.first@[s] + sc.m@[s] ==> cord_mark_ok(
            blocks,
            head,
            adj,
            bf,
            p,
            jlo,
            j,
            cords.elems@[pos] as int,
        )
}

/// Marks the transitions into the state at position `p` of the blocks.
#[verifier::rlimit(60)]
fn mark_into(
    cords: &mut Partition,
    sc: &mut Scratch,
    blocks: &Partition,
    p: usize,
    head: &Vec<usize>,
    af: &Vec<usize>,
    adj: &Vec<usize>,
    Ghost(bf): Ghost<int>,
)
    requires
        old(cords).perm(),
        old(cords).sets(head@.len() as int),
        old(cords).marks_ok(old(sc), head@.len() as int),
        old(cords).n() == head@.len(),
        adj_ok(head@, blocks.n(), af@, adj@),
        blocks.perm(),
        0 <= bf <= p < blocks.n(),
        cords_marked_by(old(cords), old(sc), blocks, head@, adj@, bf, p as int, 0, 0),
    ensures
        final(cords).perm(),
        final(cords).sets(head@.len() as int),
        final(cords).marks_ok(final(sc), head@.len() as int),
        final(cords).n() == old(cords).n(),
        final(cords).z == old(cords).z,
        final(cords).set_of == old(cords).set_of,
        final(sc).m@.len() == old(sc).m@.len(),
        cords_marked_by(final(cords), final(sc), blocks, head@, adj@, bf, p + 1, 0, 0),
        forall|t: int|
            0 <= t < head@.len() && premarked(old(cords), old(sc).m@, t) ==> #[trigger] premarked(
                final(cords),
                final(sc).m@,
                t,
            ),
        forall|t: int|
            0 <= t < head@.len() && head@[t] == blocks.elems@[p as int] ==> #[trigger] premarked(
                final(cords),
                final(sc).m@,
                t,
            ),
{
    let ghost nt = head@.len() as int;
    let ghost n = blocks.n();
    let ghost c0 = *cords;
    let ghost me = sc.m@;
    proof {
        lemma_adj_basic(head@, n, af@, adj@);
    }
    let bn = blocks.elems.len();
    let q = blocks.elems[p];
    let lo = af[q];
    let hi = af[q + 1];
    proof {
        lemma_af_mono(af@, n, q + 1, n);
        assert(cords_marked_by(cords, sc, blocks, head@, adj@, bf, p as int, 0, 0));
        assert forall|s: int, pos: int|
            #![trigger cords.first@[s], cords.elems@[pos]]
            0 <= s < cords.z && cords.first@[s] <= pos < cords.first@[s] + sc.m@[s] implies cord_mark_ok(
                blocks,
                head@,
                adj@,
                bf,
                p as int,
                lo as int,
                lo as int,
                cords.elems@[pos] as int,
            ) by {
            assert(cord_mark_ok(blocks, head@, adj@, bf, p as int, 0, 0, cords.elems@[pos] as int));
        }
        assert(cords_marked_by(cords, sc, blocks, head@, adj@, bf, p as int, lo as int, lo as int));
    }
    let mut j: usize = lo;
    while j < hi
        invariant
            adj_ok(head@, n, af@, adj@),
            af@.len() == n + 1,
            blocks.perm(),
            blocks.n() == n,
            0 <= bf <= p < n,
            q == blocks.elems@[p as int],
            af@[q as int] == lo,
            af@[q + 1] == hi,
            lo <= j <= hi,
            hi <= nt,
            nt == head@.len(),
            cords.perm(),
            cords.sets(nt),
            cords.marks_ok(sc, nt),
            cords.n() == nt,
            cords.z == c0.z,
            cords.first == c0.first,
            cords.past == c0.past,
            cords.set_of == c0.set_of,
            sc.m@.len() == old(sc).m@.len(),
            cords_marked_by(cords, sc, blocks, head@, adj@, bf, p as int, lo as int, j as int),
            forall|t: int| 0 <= t < nt && premarked(&c0, me, t) ==> #[trigger] premarked(cords, sc.m@, t),
            forall|j2: int| lo <= j2 < j ==> premarked(cords, sc.m@, #[trigger] adj@[j2] as int),
        decreases hi - j,
    {
        proof {
            lemma_adj_basic(head@, n, af@, adj@);
            lemma_adj_bucket(head@, n, af@, adj@, q as int, j as int);
        }
        let t = adj[j];
        let ghost pre = *cords;
        let ghost m0 = sc.m@;
        proof {
            let s = cords.set_of@[t as int] as int;
            let li = cords.loc@[t as int] as int;
            assert(cords.owner(li) == s);
            assert(cords.first@[s] <= li);
            if li < cords.first@[s] + sc.m@[s] {
                assert(cords.elems@[li] == t);
                assert(cord_mark_ok(blocks, head@, adj@, bf, p as int, lo as int, j as int, t as int));
                if exists|p2: int|
                    #![trigger blocks.elems@[p2]]
                    bf <= p2 < p && head@[cords.elems@[li] as int] == blocks.elems@[p2] {
                    let p2 = choose|p2: int|
                        #![trigger blocks.elems@[p2]]
                        bf <= p2 < p && head@[cords.elems@[li] as int] == blocks.elems@[p2];
                    assert(blocks.loc@[blocks.elems@[p2] as int] == p2);
                    assert(blocks.loc@[blocks.elems@[p as int] as int] == p);
                } else {
                    let j2 = choose|j2: int|
                        #![trigger adj@[j2]]
                        lo <= j2 < j && adj@[j2] == cords.elems@[li];
                    lemma_adj_inj(head@, n, af@, adj@, j2, j as int);
                }
                assert(false);
            }
        }
        cords.mark(t, sc, Ghost(nt));
        proof {
            let s = pre.set_of@[t as int] as int;
            let jp = pre.first@[s] + m0[s];
            let li = pre.loc@[t as int] as int;
            assert(pre.owner(jp) == s);
            assert(pre.owner(li) == s);
            assert forall|s2: int, pos: int|
                #![trigger cords.first@[s2], cords.elems@[pos]]
                0 <= s2 < cords.z && cords.first@[s2] <= pos < cords.first@[s2] + sc.m@[s2] implies cord_mark_ok(
                    blocks,
                    head@,
                    adj@,
                    bf,
                    p as int,
                    lo as int,
                    j + 1,
                    cords.elems@[pos] as int,
                ) by {
                if pos == jp {
                    assert(cords.elems@[pos] == t);
                    assert(adj@[j as int] == cords.elems@[pos]);
                } else {
                    if s2 == s {
                        assert(pos < jp);
                    } else {
                        assert(sc.m@[s2] == m0[s2]);
                        assert(pre.owner(pos) == s2);
                    }
                    assert(pos != li);
                    assert(cords.elems@[pos] == pre.elems@[pos]);
                    assert(pre.first@[s2] <= pos < pre.first@[s2] + m0[s2]);
                    assert(cord_mark_ok(blocks, head@, adj@, bf, p as int, lo as int, j as int, pre.elems@[pos] as int));
                    if exists|j2: int| #![trigger adj@[j2]] lo <= j2 < j && adj@[j2] == pre.elems@[pos] {
                        let j2 = choose|j2: int| #![trigger adj@[j2]] lo <= j2 < j && adj@[j2] == pre.elems@[pos];
                        assert(lo <= j2 < j + 1);
                    }
                }
            }
            assert(pre.elems@[li] == t);
            assert(pre.owner(li) < pre.z);
            assert forall|x: int| 0 <= x < nt && premarked(&c0, me, x) implies #[trigger] premarked(cords, sc.m@, x) by {
                if x != t as int {
                    assert(premarked(&pre, m0, x));
                    lemma_mark_keeps(&pre, m0, cords, sc.m@, t as int, x, nt);
                }
            }
            assert forall|j2: int| lo <= j2 < j + 1 implies premarked(cords, sc.m@, #[trigger] adj@[j2] as int) by {
                if j2 < j {
                    let x = adj@[j2] as int;
                    assert(premarked(&pre, m0, x));
                    if x != t as int {
                        lemma_mark_keeps(&pre, m0, cords, sc.m@, t as int, x, nt);
                    }
                }
            }
        }
        j = j + 1;
    }
    proof {
        assert forall|s: int, pos: int|
            #![trigger cords.first@[s], cords.elems@[pos]]
            0 <= s < cords.z && cords.first@[s] <= pos < cords.first@[s] + sc.m@[s] implies cord_mark_ok(
                blocks,
                head@,
                adj@,
                bf,
                p + 1,
                0,
                0,
                cords.elems@[pos] as int,
            ) by {
            assert(cord_mark_ok(blocks, head@, adj@, bf, p as int, lo as int, hi as int, cords.elems@[pos] as int));
            if exists|j2: int| #![trigger adj@[j2]] lo <= j2 < hi && adj@[j2] == cords.elems@[pos] {
                let j2 = choose|j2: int| #![trigger adj@[j2]] lo <= j2 < hi && adj@[j2] == cords.elems@[pos];
                lemma_adj_bucket(head@, n, af@, adj@, q as int, j2);
                assert(head@[cords.elems@[pos] as int] == blocks.elems@[p as int]);
            } else {
                let p2 = choose|p2: int|
                    #![trigger blocks.elems@[p2]]
                    bf <= p2 < p && head@[cords.elems@[pos] as int] == blocks.elems@[p2];
                assert(bf <= p2 < p + 1);
            }
        }
        assert forall|t: int| 0 <= t < head@.len() && head@[t] == blocks.elems@[p as int] implies #[trigger] premarked(
            cords,
            sc.m@,
            t,
        ) by {
            let j2 = lemma_adj_surj(head@, n, af@, adj@, t);
            assert(premarked(cords, sc.m@, adj@[j2] as int));
        }
    }
}

/// Marks the transitions into block `b` and splits the cords by them.
#[verifier::rlimit(60)]
fn split_by_block(
    cords: &mut Partition,
    blocks: &Partition,
    sc: &mut Scratch,
    b: usize,
    head: &Vec<usize>,
    label: &Vec<i32>,
    af: &Vec<usize>,
    adj: &Vec<usize>,
    Ghost(rr): Ghost<int>,
)
    requires
        old(cords).perm(),
        old(cords).sets(head@.len() as int),
        old(cords).n() == head@.len(),
        cords_by_label(old(cords), label@),
        label@.len() == head@.len(),
        old(sc).clean(),
        head@.len() < old(sc).m@.len(),
        1 < old(sc).m@.len(),
        adj_ok(head@, blocks.n(), af@, adj@),
        blocks.perm(),
        blocks.sets(rr),
        b < blocks.z,
        forall|t: int| 0 <= t < head@.len() ==> #[trigger] head@[t] < blocks.n() && blocks.loc@[head@[t] as int] < rr,
    ensures
        final(cords).perm(),
        final(cords).sets(head@.len() as int),
        final(cords).n() == old(cords).n(),
        final(cords).z >= old(cords).z,
        cords_by_label(final(cords), label@),
        final(sc).clean(),
        final(sc).m@.len() == old(sc).m@.len(),
        forall|t: int|
            0 <= t < head@.len() ==> #[trigger] final(cords).set_of@[t] == old(cords).set_of@[t]
                || final(cords).set_of@[t] >= old(cords).z,
        forall|t1: int, t2: int|
            0 <= t1 < head@.len() && 0 <= t2 < head@.len() && #[trigger] final(cords).set_of@[t1]
                == #[trigger] final(cords).set_of@[t2] ==> old(cords).set_of@[t1] == old(cords).set_of@[t2]
                && (blocks.set_of@[head@[t1] as int] == b) == (blocks.set_of@[head@[t2] as int] == b),
        forall|t1: int, t2: int| #[trigger] cord_kept(final(cords), old(cords), blocks, head@, b as int, t1, t2),
{
    let ghost nt = head@.len() as int;
    let ghost c0 = *cords;
    let bf = blocks.first[b];
    let bp = blocks.past[b];
    proof {
        lemma_clean_marks_ok(cords, sc, nt);
        assert forall|s: int, pos: int|
            #![trigger cords.first@[s], cords.elems@[pos]]
            0 <= s < cords.z && cords.first@[s] <= pos < cords.first@[s] + sc.m@[s] implies cord_mark_ok(
                blocks,
                head@,
                adj@,
                bf as int,
                bf as int,
                0,
                0,
                cords.elems@[pos] as int,
            ) by {
            assert(sc.m@[s] == 0);
        }
    }
    let mut p: usize = bf;
    while p < bp
        invariant
            adj_ok(head@, blocks.n(), af@, adj@),
            blocks.perm(),
            bf <= p <= bp,
            bp <= blocks.n(),
            nt == head@.len(),
            cords.perm(),
            cords.sets(nt),
            cords.marks_ok(sc, nt),
            cords.n() == nt,
            cords.z == c0.z,
            cords.set_of == c0.set_of,
            sc.m@.len() == old(sc).m@.len(),
            cords_marked_by(cords, sc, blocks, head@, adj@, bf as int, p as int, 0, 0),
            forall|t: int|
                0 <= t < nt && bf <= blocks.loc@[head@[t] as int] < p ==> #[trigger] premarked(cords, sc.m@, t),
            forall|t: int| 0 <= t < head@.len() ==> #[trigger] head@[t] < blocks.n(),
        decreases bp - p,
    {
        mark_into(cords, sc, blocks, p, head, af, adj, Ghost(bf as int));
        proof {
            assert forall|t: int| 0 <= t < nt && bf <= blocks.loc@[head@[t] as int] < p + 1 implies #[trigger] premarked(
                cords,
                sc.m@,
                t,
            ) by {
                if blocks.loc@[head@[t] as int] == p {
                    assert(blocks.elems@[p as int] == head@[t]);
                }
            }
        }
        p = p + 1;
    }
    let ghost cm = *cords;
    let ghost mm = sc.m@;
    proof {
        assert forall|t: int| 0 <= t < nt implies premarked(&cm, mm, t) == (blocks.set_of@[head@[t] as int] == b) by {
            let h = head@[t] as int;
            assert(blocks.elems@[blocks.loc@[h] as int] == h);
            assert(blocks.owner(blocks.loc@[h] as int) < blocks.z);
            if premarked(&cm, mm, t) {
                assert(cm.elems@[cm.loc@[t] as int] == t);
                assert(cm.owner(cm.loc@[t] as int) < cm.z);
                let pos = cm.loc@[t] as int;
                let s2 = cm.set_of@[t] as int;
                assert(cm.first@[s2] <= pos);
                assert(cord_mark_ok(blocks, head@, adj@, bf as int, bp as int, 0, 0, cm.elems@[pos] as int));
                let p2 = choose|p2: int|
                    #![trigger blocks.elems@[p2]]
                    bf <= p2 < bp && head@[cm.elems@[pos] as int] == blocks.elems@[p2];
                assert(blocks.owner(p2) == b);
            }
        }
    }
    cords.split(sc, Ghost(nt));
    proof {
        assert forall|t1: int, t2: int|
            0 <= t1 < head@.len() && 0 <= t2 < head@.len() && #[trigger] cords.set_of@[t1]
                == #[trigger] cords.set_of@[t2] implies c0.set_of@[t1] == c0.set_of@[t2] && (
            blocks.set_of@[head@[t1] as int] == b) == (blocks.set_of@[head@[t2] as int] == b) by {
            assert(cm.loc@[t1] < nt);
            assert(cm.loc@[t2] < nt);
            assert(premarked(&cm, mm, t1) == (blocks.set_of@[head@[t1] as int] == b));
            assert(premarked(&cm, mm, t2) == (blocks.set_of@[head@[t2] as int] == b));
        }
        assert forall|t1: int, t2: int| #[trigger] cord_kept(cords, &c0, blocks, head@, b as int, t1, t2) by {
            assert(kept_together(cords, &cm, mm, nt, t1, t2));
            if 0 <= t1 < nt && 0 <= t2 < nt {
                assert(cm.loc@[t1] < nt);
                assert(cm.loc@[t2] < nt);
                assert(premarked(&cm, mm, t1) == (blocks.set_of@[head@[t1] as int] == b));
                assert(premarked(&cm, mm, t2) == (blocks.set_of@[head@[t2] as int] == b));
            }
        }
        assert forall|t: int| 0 <= t < head@.len() implies #[trigger] cords.set_of@[t] == c0.set_of@[t]
            || cords.set_of@[t] >= c0.z by {
            assert(cm.loc@[t] < nt);
        }
        assert forall|t1: int, t2: int|
            0 <= t1 < label@.len() && 0 <= t2 < label@.len() && #[trigger] cords.set_of@[t1]
                == #[trigger] cords.set_of@[t2] implies label@[t1] == label@[t2] by {
            assert(cm.loc@[t1] < nt);
            assert(cm.loc@[t2] < nt);
            assert(c0.set_of@[t1] == c0.set_of@[t2]);
        }
    }
}

/// Number of `t' < t` with `key[t'] == q`.
spec fn cnt(key: Seq<usize>, q: int, t: int) -> int
    decreases t,
{
    if t <= 0 {
        0
    } else {
        cnt(key, q, t - 1) + if key[t - 1] == q {
            1int
        } else {
            0
        }
    }
}

/// Number of `t' < t` whose key is below `q`.
spec fn start(key: Seq<usize>, q: int, t: int) -> int
    decreases q,
{
    if q <= 0 {
        0
    } else {
        start(key, q - 1, t) + cnt(key, q - 1, t)
    }
}

proof fn lemma_cnt_bounds(key: Seq<usize>, q: int, t1: int, t2: int)
    requires
        0 <= t1 <= t2,
    ensures
        0 <= cnt(key, q, t1) <= cnt(key, q, t2),
        cnt(key, q, t2) - cnt(key, q, t1) <= t2 - t1,
    decreases t2 - t1,
{
    if t1 < t2 {
        lemma_cnt_bounds(key, q, t1, t2 - 1);
    } else {
        lemma_cnt_nonneg(key, q, t1);
    }
}

proof fn lemma_cnt_nonneg(key: Seq<usize>, q: int, t: int)
    ensures
        0 <= cnt(key, q, t),
        t >= 0 ==> cnt(key, q, t) <= t,
    decreases t,
{
    if t > 0 {
        lemma_cnt_nonneg(key, q, t - 1);
    }
}

proof fn lemma_start_mono(key: Seq<usize>, q1: int, q2: int, t: int)
    requires
        q1 <= q2,
    ensures
        start(key, q1, t) <= start(key, q2, t),
    decreases q2 - q1,
{
    if q1 < q2 {
        lemma_start_mono(key, q1, q2 - 1, t);
        if q2 > 0 {
            lemma_cnt_nonneg(key, q2 - 1, t);
        }
    }
}

proof fn lemma_start_step(key: Seq<usize>, q: int, t: int)
    requires
        0 <= t < key.len(),
        0 <= q,
    ensures
        start(key, q, t + 1) == start(key, q, t) + if key[t] < q {
            1int
        } else {
            0
        },
    decreases q,
{
    if q > 0 {
        lemma_start_step(key, q - 1, t);
    }
}

/// With every key below `nb`, the keys below `nb` are all of them.
proof fn lemma_start_total(key: Seq<usize>, nb: int, t: int)
    requires
        0 <= t <= key.len(),
        0 <= nb,
        forall|i: int| 0 <= i < key.len() ==> #[trigger] key[i] < nb,
    ensures
        start(key, nb, t) == t,
    decreases t,
{
    if t > 0 {
        lemma_start_total(key, nb, t - 1);
        lemma_start_step(key, nb, t - 1);
    } else {
        lemma_start_zero(key, nb);
    }
}

proof fn lemma_start_zero(key: Seq<usize>, q: int)
    ensures
        start(key, q, 0) == 0,
    decreases q,
{
    if q > 0 {
        lemma_start_zero(key, q - 1);
    }
}

/// `af` buckets the indices `0..key.len()` of `adj` by key: bucket `q` is
/// `adj[af[q]..af[q+1]]`, every bucket holds exactly the indices with that key, and
/// `adj[..key.len()]` is a permutation of `0..key.len()`.
#[verifier::opaque]
spec fn adj_ok(key: Seq<usize>, nb: int, af: Seq<usize>, adj: Seq<usize>) -> bool {
    let k = key.len() as int;
    &&& af.len() == nb + 1
    &&& af[0] == 0
    &&& af[nb] == k
    &&& adj.len() >= k
    &&& forall|q: int| 0 <= q < nb ==> #[trigger] af[q] <= af[q + 1]
    &&& forall|q: int, j: int|
        #![trigger af[q], adj[j]]
        0 <= q < nb && af[q] <= j < af[q + 1] ==> adj[j] < k && key[adj[j] as int] == q
    &&& forall|j: int| 0 <= j < k ==> #[trigger] adj[j] < k
    &&& forall|j1: int, j2: int|
        0 <= j1 < k && 0 <= j2 < k && #[trigger] adj[j1] == #[trigger] adj[j2] ==> j1 == j2
    &&& forall|t: int|
        #![trigger key[t]]
        0 <= t < k ==> exists|j: int|
            #![trigger adj[j]]
            af[key[t] as int] <= j < af[key[t] + 1] && adj[j] == t
}

proof fn lemma_adj_basic(key: Seq<usize>, nb: int, af: Seq<usize>, adj: Seq<usize>)
    requires
        adj_ok(key, nb, af, adj),
    ensures
        af.len() == nb + 1,
        af[0] == 0,
        af[nb] == key.len(),
        adj.len() >= key.len(),
        forall|q: int| 0 <= q < nb ==> #[trigger] af[q] <= af[q + 1],
        forall|j: int| 0 <= j < key.len() ==> #[trigger] adj[j] < key.len(),
{
    reveal(adj_ok);
}

proof fn lemma_adj_bucket(key: Seq<usize>, nb: int, af: Seq<usize>, adj: Seq<usize>, q: int, j: int)
    requires
        adj_ok(key, nb, af, adj),
        0 <= q < nb,
        af[q] <= j < af[q + 1],
    ensures
        adj[j] < key.len(),
        key[adj[j] as int] == q,
{
    reveal(adj_ok);
}

proof fn lemma_adj_inj(key: Seq<usize>, nb: int, af: Seq<usize>, adj: Seq<usize>, j1: int, j2: int)
    requires
        adj_ok(key, nb, af, adj),
        0 <= j1 < key.len(),
        0 <= j2 < key.len(),
        adj[j1] == adj[j2],
    ensures
        j1 == j2,
{
    reveal(adj_ok);
}

proof fn lemma_adj_surj(key: Seq<usize>, nb: int, af: Seq<usize>, adj: Seq<usize>, t: int) -> (j: int)
    requires
        adj_ok(key, nb, af, adj),
        0 <= t < key.len(),
    ensures
        af[key[t] as int] <= j < af[key[t] + 1],
        adj[j] == t,
{
    reveal(adj_ok);
    choose|j: int| #![trigger adj[j]] af[key[t] as int] <= j < af[key[t] + 1] && adj[j] == t
}

/// Finds the bucket that holds position `j`.
proof fn lemma_find_bucket(af: Seq<usize>, nb: int, j: int) -> (q: int)
    requires
        af.len() == nb + 1,
        0 <= nb,
        forall|x: int| 0 <= x < nb ==> #[trigger] af[x] <= af[x + 1],
        af[0] <= j < af[nb],
    ensures
        0 <= q < nb,
        af[q] <= j < af[q + 1],
    decreases nb,
{
    if af[nb - 1] <= j {
        nb - 1
    } else {
        let q = lemma_find_bucket(af.subrange(0, nb), nb - 1, j);
        assert(af.subrange(0, nb)[q] == af[q]);
        assert(af.subrange(0, nb)[q + 1] == af[q + 1]);
        q
    }
}

/// Counting sort of the indices of `key` by key value (`make_adjacent` in Valmari's
/// paper): afterwards `adj[af[q]..af[q + 1]]` lists, in increasing order, the indices
/// whose key is `q`.
#[verifier::rlimit(40)]
fn make_adjacent(key: &Vec<usize>, nb: usize, af: &mut Vec<usize>, adj: &mut Vec<usize>)
    requires
        forall|t: int| 0 <= t < key@.len() ==> #[trigger] key@[t] < nb,
        old(af)@.len() == nb + 1,
        old(adj)@.len() >= key@.len(),
    ensures
        final(adj)@.len() == old(adj)@.len(),
        adj_ok(key@, nb as int, final(af)@, final(adj)@),
{
    let kl = key.len();
    let ghost k = kl as int;
    let mut x: usize = 0;
    while x < af.len()
        invariant
            x <= af@.len(),
            af@.len() == nb + 1,
            forall|i: int| 0 <= i < x ==> #[trigger] af@[i] == 0,
        decreases af@.len() - x,
    {
        af.set(x, 0);
        x = x + 1;
    }
    for t in 0..kl
        invariant
            kl == key@.len(),
            af@.len() == nb + 1,
            forall|t2: int| 0 <= t2 < key@.len() ==> #[trigger] key@[t2] < nb,
            forall|q: int| 0 <= q <= nb ==> #[trigger] af@[q] == cnt(key@, q, t as int),
    {
        let kk = key[t];
        proof {
            lemma_cnt_nonneg(key@, kk as int, t as int);
        }
        let v = af[kk];
        af.set(kk, v + 1);
        assert forall|q: int| 0 <= q <= nb implies #[trigger] af@[q] == cnt(key@, q, (t + 1) as int) by {
        }
    }
    proof {
        lemma_cnt_nonneg(key@, nb as int, k);
        assert(cnt(key@, nb as int, k) == 0) by {
            lemma_cnt_zero_above(key@, nb as int, k);
        }
    }
    for q in 0..nb
        invariant
            kl == key@.len(),
            k == kl,
            af@.len() == nb + 1,
            forall|t2: int| 0 <= t2 < key@.len() ==> #[trigger] key@[t2] < nb,
            forall|q2: int| 0 <= q2 < q ==> #[trigger] af@[q2] == start(key@, q2 + 1, k),
            af@[q as int] == start(key@, q as int, k) + cnt(key@, q as int, k),
            forall|q2: int| q < q2 <= nb ==> #[trigger] af@[q2] == cnt(key@, q2, k),
            cnt(key@, nb as int, k) == 0,
    {
        let a = af[q];
        let b = af[q + 1];
        proof {
            lemma_start_total(key@, nb as int, k);
            lemma_cnt_nonneg(key@, q + 1, k);
            if q + 1 < nb {
                lemma_start_mono(key@, q + 2, nb as int, k);
                assert(start(key@, q + 2, k) == start(key@, q + 1, k) + cnt(key@, q + 1, k));
            } else {
                assert(start(key@, q + 1, k) == start(key@, q as int, k) + cnt(key@, q as int, k));
            }
        }
        af.set(q + 1, a + b);
    }
    proof {
        lemma_start_total(key@, nb as int, k);
    }
    // af[q] == start(q + 1) for q < nb, af[nb] == k
    let ghost mut pos: Seq<int> = Seq::new(k as nat, |t: int| 0int);
    let mut tt: usize = kl;
    while tt > 0
        invariant
            kl == key@.len(),
            k == kl,
            tt <= kl,
            af@.len() == nb + 1,
            adj@.len() == old(adj)@.len(),
            adj@.len() >= kl,
            pos.len() == k,
            forall|t2: int| 0 <= t2 < key@.len() ==> #[trigger] key@[t2] < nb,
            start(key@, nb as int, k) == k,
            forall|q: int| 0 <= q < nb ==> #[trigger] af@[q] == start(key@, q, k) + cnt(key@, q, tt as int),
            af@[nb as int] == k,
            forall|q: int, j: int|
                #![trigger af@[q], adj@[j]]
                0 <= q < nb && af@[q] <= j < start(key@, q + 1, k) ==> tt <= adj@[j] < k && key@[adj@[j] as int]
                    == q && pos[adj@[j] as int] == j,
            forall|t: int|
                tt <= t < k ==> af@[key@[t] as int] <= #[trigger] pos[t] < start(key@, key@[t] + 1, k)
                    && adj@[pos[t]] == t,
        decreases tt,
    {
        let t = tt - 1;
        let kk = key[t];
        let ghost old_af = af@;
        let ghost old_adj = adj@;
        proof {
            lemma_cnt_bounds(key@, kk as int, t as int, tt as int);
            lemma_cnt_bounds(key@, kk as int, tt as int, k);
            lemma_cnt_nonneg(key@, kk as int, t as int);
            lemma_start_mono(key@, kk as int + 1, nb as int, k);
            lemma_start_mono(key@, 0, kk as int, k);
            assert(cnt(key@, kk as int, tt as int) == cnt(key@, kk as int, t as int) + 1);
        }
        let v = af[kk];
        af.set(kk, v - 1);
        adj.set(v - 1, t);
        proof {
            pos = pos.update(t as int, (v - 1) as int);
            assert forall|q: int| 0 <= q < nb implies #[trigger] af@[q] == start(key@, q, k) + cnt(
                key@,
                q,
                t as int,
            ) by {
                if q != kk {
                    assert(cnt(key@, q, tt as int) == cnt(key@, q, t as int));
                }
            }
            assert forall|q: int, j: int|
                #![trigger af@[q], adj@[j]]
                0 <= q < nb && af@[q] <= j < start(key@, q + 1, k) implies t <= adj@[j] < k && key@[adj@[j] as int]
                == q && pos[adj@[j] as int] == j by {
                if j == v - 1 {
                    if q < kk {
                        lemma_start_mono(key@, q + 1, kk as int, k);
                    } else if q > kk {
                        lemma_start_mono(key@, kk as int + 1, q, k);
                    }
                    lemma_cnt_nonneg(key@, q, k);
                    lemma_cnt_nonneg(key@, q, t as int);
                    lemma_cnt_bounds(key@, q, t as int, k);
                    assert(q == kk);
                } else {
                    lemma_start_mono(key@, q + 1, nb as int, k);
                    assert(adj@[j] == old_adj[j]);
                    if q == kk {
                        assert(old_af[q] <= j);
                    }
                    assert(old_af[q] <= j < start(key@, q + 1, k));
                    assert(tt <= old_adj[j]);
                }
            }
            assert forall|t2: int| t <= t2 < k implies af@[key@[t2] as int] <= #[trigger] pos[t2] < start(
                key@,
                key@[t2] + 1,
                k,
            ) && adj@[pos[t2]] == t2 by {
                if t2 != t {
                    assert(pos[t2] != v - 1) by {
                        if pos[t2] == v - 1 {
                            let q2 = key@[t2] as int;
                            if q2 < kk {
                                lemma_start_mono(key@, q2 + 1, kk as int, k);
                            } else if q2 > kk {
                                lemma_start_mono(key@, kk as int + 1, q2, k);
                            }
                            lemma_cnt_bounds(key@, kk as int, tt as int, k);
                            lemma_cnt_bounds(key@, q2, tt as int, k);
                            lemma_cnt_nonneg(key@, q2, tt as int);
                            assert(q2 == kk);
                        }
                    }
                    lemma_start_mono(key@, key@[t2] + 1, nb as int, k);
                    assert(adj@[pos[t2]] == old_adj[pos[t2]]);
                }
            }
        }
        tt = t;
    }
    proof {
        reveal(adj_ok);
        lemma_start_zero(key@, 0);
        assert(af@[0] == 0) by {
            if nb > 0 {
                assert(af@[0] == start(key@, 0, k) + cnt(key@, 0, 0));
            } else {
                assert(af@[nb as int] == k);
                assert(k == 0) by {
                    if k > 0 {
                        assert(key@[0] < nb);
                    }
                }
            }
        }
        assert forall|q: int| 0 <= q < nb implies #[trigger] af@[q] == start(key@, q, k) by {
        }
        assert forall|q: int| 0 <= q < nb implies #[trigger] af@[q] <= af@[q + 1] by {
            lemma_start_mono(key@, q, q + 1, k);
        }
        assert forall|q: int, j: int|
            #![trigger af@[q], adj@[j]]
            0 <= q < nb && af@[q] <= j < af@[q + 1] implies adj@[j] < k && key@[adj@[j] as int] == q by {
            if q + 1 < nb {
                assert(af@[q + 1] == start(key@, q + 1, k));
            }
        }
        assert forall|j: int| 0 <= j < k implies #[trigger] adj@[j] < k && pos[adj@[j] as int] == j by {
            let q = lemma_find_bucket(af@, nb as int, j);
            if q + 1 < nb {
                assert(af@[q + 1] == start(key@, q + 1, k));
            }
            assert(af@[q] <= j < start(key@, q + 1, k));
        }
        assert forall|j1: int, j2: int|
            0 <= j1 < k && 0 <= j2 < k && #[trigger] adj@[j1] == #[trigger] adj@[j2] implies j1 == j2 by {
            assert(pos[adj@[j1] as int] == j1);
            assert(pos[adj@[j2] as int] == j2);
        }
        assert forall|t: int| #![trigger key@[t]] 0 <= t < k implies exists|j: int|
            #![trigger adj@[j]]
            af@[key@[t] as int] <= j < af@[key@[t] + 1] && adj@[j] == t by {
            let q = key@[t] as int;
            if q + 1 < nb {
                assert(af@[q + 1] == start(key@, q + 1, k));
            }
            assert(adj@[pos[t]] == t);
        }
    }
}

proof fn lemma_cnt_zero_above(key: Seq<usize>, q: int, t: int)
    requires
        0 <= t <= key.len(),
        forall|i: int| 0 <= i < key.len() ==> #[trigger] key[i] < q,
    ensures
        cnt(key, q, t) == 0,
    decreases t,
{
    if t > 0 {
        lemma_cnt_zero_above(key, q, t - 1);
    }
}


/// `tail`/`label`/`head` list distinct transitions of `fa`: no two share both their
/// tail and their label.
spec fn trans_ok(fa: &Fa, tail: Seq<usize>, label: Seq<i32>, head: Seq<usize>) -> bool {
    &&& label.len() == tail.len()
    &&& head.len() == tail.len()
    &&& forall|t: int|
        0 <= t < tail.len() ==> #[trigger] tail[t] < fa.q && head[t] < fa.q && fa.row(
            tail[t] as int,
        ).contains_key(label[t]) && fa.dests(tail[t] as int, label[t]).contains(head[t])
    &&& forall|t1: int, t2: int|
        0 <= t1 < tail.len() && 0 <= t2 < tail.len() && t1 != t2 && #[trigger] tail[t1] == #[trigger] tail[t2]
            ==> label[t1] != label[t2]
}

/// Every transition of the states `0..upto` is listed.
spec fn trans_complete(fa: &Fa, tail: Seq<usize>, label: Seq<i32>, head: Seq<usize>, upto: int) -> bool {
    forall|p: int, sym: i32|
        0 <= p < upto && #[trigger] fa.row(p).contains_key(sym) && fa.dests(p, sym).len() > 0 ==> exists|t: int|
            #![trigger tail[t]]
            0 <= t < tail.len() && tail[t] == p && label[t] == sym && head[t] == fa.dests(p, sym)[0]
}

/// The transitions of `fa` as parallel tail/label/head arrays, state by state and,
/// within a state, in increasing symbol order.
fn flatten(fa: &Fa) -> (r: (Vec<usize>, Vec<i32>, Vec<usize>))
    requires
        fa.wf(),
        fa.spec_deterministic(),
    ensures
        trans_ok(fa, r.0@, r.1@, r.2@),
        trans_complete(fa, r.0@, r.1@, r.2@, fa.q as int),
{
    let n = fa.q;
    let mut tail: Vec<usize> = Vec::new();
    let mut label: Vec<i32> = Vec::new();
    let mut head: Vec<usize> = Vec::new();
    for q in 0..n
        invariant
            n == fa.q,
            fa.wf(),
            fa.spec_deterministic(),
            trans_ok(fa, tail@, label@, head@),
            forall|t: int| 0 <= t < tail@.len() ==> #[trigger] tail@[t] < q,
            trans_complete(fa, tail@, label@, head@, q as int),
    {
        let row = &fa.d[q];
        let ghost rem = vstd::std_specs::btree::spec_btree_map_iter(row).remaining();
        for e in it: row.iter()
            invariant
                n == fa.q,
                fa.wf(),
                fa.spec_deterministic(),
                0 <= q < n,
                *row == fa.d@[q as int],
                it.seq() == rem,
                rem == vstd::std_specs::btree::spec_btree_map_iter(row).remaining(),
                rem.no_duplicates(),
                trans_ok(fa, tail@, label@, head@),
                forall|t: int| 0 <= t < tail@.len() ==> #[trigger] tail@[t] <= q,
                forall|t: int|
                    0 <= t < tail@.len() && #[trigger] tail@[t] == q ==> exists|i: int|
                        0 <= i < it.index() && label@[t] == *rem[i].0,
                trans_complete(fa, tail@, label@, head@, q as int),
                forall|i: int|
                    0 <= i < it.index() && fa.dests(q as int, *rem[i].0).len() > 0 ==> exists|t: int|
                        #![trigger tail@[t]]
                        0 <= t < tail@.len() && tail@[t] == q && label@[t] == *#[trigger] rem[i].0 && head@[t]
                            == fa.dests(q as int, *rem[i].0)[0],
        {
            let sym = *e.0;
            let dests = e.1;
            proof {
                assert(e == rem[it.index()]);
                assert(row@.contains_key(*rem[it.index()].0));
                assert(row@[*rem[it.index()].0] == *rem[it.index()].1);
                assert(fa.row(q as int).contains_key(sym));
                assert(fa.dests(q as int, sym).len() <= 1);
            }
            let ghost len0 = tail@.len();
            let ghost tail0 = tail@;
            let ghost label0 = label@;
            let ghost head0 = head@;
            let ghost idx = it.index();
            let mut k: usize = 0;
            #[verifier::loop_isolation(false)]
            while k < dests.len()
                invariant
                    n == fa.q,
                    fa.wf(),
                    0 <= q < n,
                    k <= dests@.len(),
                    dests@.len() <= 1,
                    *dests == fa.row(q as int)[sym],
                    fa.row(q as int).contains_key(sym),
                    trans_ok(fa, tail@, label@, head@),
                    tail@.len() == len0 + k,
                    forall|t: int| 0 <= t < tail@.len() ==> #[trigger] tail@[t] <= q,
                    forall|t: int|
                        len0 <= t < tail@.len() ==> #[trigger] tail@[t] == q && label@[t] == sym,
                    forall|t: int|
                        0 <= t < len0 && #[trigger] tail@[t] == q ==> label@[t] != sym,
                    forall|t: int|
                        0 <= t < len0 ==> #[trigger] tail@[t] == tail0[t] && label@[t] == label0[t] && head@[t]
                            == head0[t],
                    forall|t: int| len0 <= t < tail@.len() ==> #[trigger] head@[t] == dests@[t - len0],
                decreases dests@.len() - k,
            {
                let dest = dests[k];
                proof {
                    assert(fa.dests(q as int, sym)[k as int] == dest);
                }
                tail.push(q);
                label.push(sym);
                head.push(dest);
                k = k + 1;
            }
            assert forall|t: int|
                0 <= t < tail@.len() && #[trigger] tail@[t] == q implies exists|i: int|
                    0 <= i < idx + 1 && label@[t] == *rem[i].0 by {
                if t >= len0 {
                    assert(label@[t] == *rem[idx].0);
                } else {
                    assert(tail0[t] == q);
                }
            }
            assert forall|p: int, sym2: i32|
                0 <= p < q && #[trigger] fa.row(p).contains_key(sym2) && fa.dests(p, sym2).len() > 0 implies exists|t: int|
                    #![trigger tail@[t]]
                    0 <= t < tail@.len() && tail@[t] == p && label@[t] == sym2 && head@[t] == fa.dests(p, sym2)[0] by {
                let t = choose|t: int|
                    #![trigger tail0[t]]
                    0 <= t < tail0.len() && tail0[t] == p && label0[t] == sym2 && head0[t] == fa.dests(p, sym2)[0];
                assert(tail@[t] == p);
            }
            assert forall|i: int|
                0 <= i < idx + 1 && fa.dests(q as int, *rem[i].0).len() > 0 implies exists|t: int|
                    #![trigger tail@[t]]
                    0 <= t < tail@.len() && tail@[t] == q && label@[t] == *#[trigger] rem[i].0 && head@[t]
                        == fa.dests(q as int, *rem[i].0)[0] by {
                if i < idx {
                    let t = choose|t: int|
                        #![trigger tail0[t]]
                        0 <= t < tail0.len() && tail0[t] == q && label0[t] == *rem[i].0 && head0[t] == fa.dests(
                            q as int,
                            *rem[i].0,
                        )[0];
                    assert(tail@[t] == q);
                } else {
                    assert(tail@[len0 as int] == q);
                }
            }
        }
        proof {
            assert forall|p: int, sym2: i32|
                0 <= p < q + 1 && #[trigger] fa.row(p).contains_key(sym2) && fa.dests(p, sym2).len() > 0 implies exists|t: int|
                    #![trigger tail@[t]]
                    0 <= t < tail@.len() && tail@[t] == p && label@[t] == sym2 && head@[t] == fa.dests(p, sym2)[0] by {
                if p == q {
                    assert(row@.contains_key(sym2));
                    assert(rem.contains((&sym2, &row@[sym2])));
                    let i = choose|i: int| 0 <= i < rem.len() && rem[i] == (&sym2, &row@[sym2]);
                    assert(*rem[i].0 == sym2);
                }
            }
        }
    }
    (tail, label, head)
}


/// Records `q` as co-reachable: swaps it into the reached prefix `elems[..rr]`.
fn reach(blocks: &mut Partition, rr: &mut usize, q: usize)
    requires
        old(blocks).perm(),
        *old(rr) <= old(blocks).n(),
        q < old(blocks).n(),
    ensures
        final(blocks).perm(),
        final(blocks).n() == old(blocks).n(),
        final(blocks).z == old(blocks).z,
        final(blocks).set_of == old(blocks).set_of,
        final(blocks).first == old(blocks).first,
        final(blocks).past == old(blocks).past,
        *final(rr) <= final(blocks).n(),
        *final(rr) == if old(blocks).loc@[q as int] >= *old(rr) {
            *old(rr) + 1
        } else {
            *old(rr) as int
        },
        final(blocks).loc@[q as int] < *final(rr),
        forall|pos: int| 0 <= pos < *old(rr) ==> #[trigger] final(blocks).elems@[pos] == old(blocks).elems@[pos],
        forall|e: int|
            0 <= e < old(blocks).n() && old(blocks).loc@[e] < *old(rr) ==> #[trigger] final(blocks).loc@[e]
                == old(blocks).loc@[e],
        forall|e: int|
            0 <= e < old(blocks).n() && final(blocks).loc@[e] < *old(rr) ==> #[trigger] final(blocks).loc@[e]
                == old(blocks).loc@[e],
        old(blocks).loc@[q as int] >= *old(rr) ==> final(blocks).elems@[*old(rr) as int] == q,
{
    let ghost pre = *blocks;
    let bn = blocks.elems.len();
    let i = blocks.loc[q];
    if i >= *rr {
        let r = *rr;
        let er = blocks.elems[r];
        blocks.elems.set(i, er);
        blocks.loc.set(er, i);
        blocks.elems.set(r, q);
        blocks.loc.set(q, r);
        *rr = r + 1;
        assert(blocks.elems@ == pre.elems@.update(i as int, er).update(r as int, q));
        assert forall|k: int| 0 <= k < blocks.n() implies #[trigger] blocks.elems@[k] < blocks.n()
            && blocks.loc@[blocks.elems@[k] as int] == k by {
            if k != r as int && k != i as int {
                assert(pre.elems@[k] != q);
                assert(pre.elems@[k] != er);
            }
        }
        assert forall|x: int| 0 <= x < blocks.n() implies #[trigger] blocks.loc@[x] < blocks.n()
            && blocks.elems@[blocks.loc@[x] as int] == x by {
            if x != q as int && x != er as int {
                assert(pre.loc@[x] != i);
                assert(pre.loc@[x] != r);
            }
        }
        assert forall|e: int|
            0 <= e < pre.n() && pre.loc@[e] < r implies #[trigger] blocks.loc@[e] == pre.loc@[e] by {
            assert(e != q as int);
            assert(e != er as int);
        }
        assert forall|e: int|
            0 <= e < pre.n() && blocks.loc@[e] < r implies #[trigger] blocks.loc@[e] == pre.loc@[e] by {
            assert(e != q as int);
            if e == er as int {
                assert(blocks.loc@[e] == i);
            }
        }
    }
}

/// Reaches the tails of all transitions into the state at position `i` of the reached
/// prefix.
#[verifier::rlimit(40)]
fn reach_predecessors(
    fa: &Fa,
    tail: &Vec<usize>,
    label: &Vec<i32>,
    head: &Vec<usize>,
    af: &Vec<usize>,
    adj: &Vec<usize>,
    blocks: &mut Partition,
    rr: &mut usize,
    i: usize,
)
    requires
        fa.wf(),
        fa.spec_deterministic(),
        trans_ok(fa, tail@, label@, head@),
        adj_ok(head@, fa.q as int, af@, adj@),
        old(blocks).perm(),
        old(blocks).n() == fa.q,
        i < *old(rr) <= fa.q,
        forall|pos: int| 0 <= pos < *old(rr) ==> #[trigger] has_word(fa, old(blocks).elems@[pos] as int),
    ensures
        final(blocks).perm(),
        final(blocks).n() == fa.q,
        final(blocks).z == old(blocks).z,
        final(blocks).set_of == old(blocks).set_of,
        final(blocks).first == old(blocks).first,
        final(blocks).past == old(blocks).past,
        *old(rr) <= *final(rr) <= fa.q,
        forall|pos: int| 0 <= pos < *old(rr) ==> #[trigger] final(blocks).elems@[pos] == old(blocks).elems@[pos],
        forall|e: int|
            0 <= e < fa.q && old(blocks).loc@[e] < *old(rr) ==> #[trigger] final(blocks).loc@[e]
                == old(blocks).loc@[e],
        forall|pos: int| 0 <= pos < *final(rr) ==> #[trigger] has_word(fa, final(blocks).elems@[pos] as int),
        forall|t: int|
            0 <= t < tail@.len() && head@[t] == old(blocks).elems@[i as int] ==> #[trigger] final(blocks).loc@[tail@[t] as int]
                < *final(rr),
{
    let n = fa.q;
    let nt = tail.len();
    proof {
        lemma_adj_basic(head@, n as int, af@, adj@);
    }
    let ghost bi = *blocks;
    let ghost ri = *rr;
    let q = blocks.elems[i];
    let lo = af[q];
    let hi = af[q + 1];
    proof {
        lemma_af_mono(af@, n as int, q + 1, n as int);
    }
    let mut j: usize = lo;
    while j < hi
        invariant
            n == fa.q,
            nt == tail@.len(),
            fa.wf(),
            fa.spec_deterministic(),
            trans_ok(fa, tail@, label@, head@),
            adj_ok(head@, n as int, af@, adj@),
            af@.len() == n + 1,
            q < n,
            af@[q as int] == lo,
            af@[q + 1] == hi,
            lo <= j <= hi,
            hi <= nt,
            ri <= *rr <= n,
            i < ri,
            bi.elems@[i as int] == q,
            blocks.perm(),
            blocks.n() == n,
            blocks.z == bi.z,
            blocks.set_of == bi.set_of,
            blocks.first == bi.first,
            blocks.past == bi.past,
            forall|pos: int| 0 <= pos < ri ==> #[trigger] blocks.elems@[pos] == bi.elems@[pos],
            forall|e: int| 0 <= e < n && bi.loc@[e] < ri ==> #[trigger] blocks.loc@[e] == bi.loc@[e],
            forall|pos: int| 0 <= pos < *rr ==> #[trigger] has_word(fa, blocks.elems@[pos] as int),
            forall|j2: int| lo <= j2 < j ==> #[trigger] blocks.loc@[tail@[adj@[j2] as int] as int] < *rr,
        decreases hi - j,
    {
        proof {
            lemma_adj_bucket(head@, n as int, af@, adj@, q as int, j as int);
            lemma_adj_basic(head@, n as int, af@, adj@);
        }
        let t = adj[j];
        let tl = tail[t];
        let ghost pre = *blocks;
        let ghost r0 = *rr;
        proof {
            assert(head@[t as int] == q);
            assert(blocks.elems@[i as int] == q);
            assert(has_word(fa, q as int));
            assert(fa.row(tl as int).contains_key(label@[t as int]) && fa.dests(tl as int, label@[t as int]).contains(q));
            lemma_word_step(fa, tl as int, label@[t as int], q as int);
        }
        reach(blocks, rr, tl);
        proof {
            assert forall|pos: int| 0 <= pos < *rr implies #[trigger] has_word(fa, blocks.elems@[pos] as int) by {
                if pos < r0 {
                    assert(blocks.elems@[pos] == pre.elems@[pos]);
                } else {
                    assert(blocks.elems@[pos] == tl);
                }
            }
            assert forall|j2: int| lo <= j2 < j + 1 implies #[trigger] blocks.loc@[tail@[adj@[j2] as int] as int] < *rr by {
                if j2 < j {
                    lemma_adj_bucket(head@, n as int, af@, adj@, q as int, j2);
                    assert(pre.loc@[tail@[adj@[j2] as int] as int] < r0);
                }
            }
        }
        j = j + 1;
    }
    proof {
        assert forall|t: int|
            0 <= t < nt && head@[t] == bi.elems@[i as int] implies #[trigger] blocks.loc@[tail@[t] as int] < *rr by {
            let j2 = lemma_adj_surj(head@, n as int, af@, adj@, t);
        }
    }
}

/// Moves every state from which an accepting state can be reached to the front of
/// `blocks.elems`, the accepting states first. Returns the partition (still one set),
/// the number of such states and the number of accepting states.
fn coreachable_prefix(fa: &Fa, tail: &Vec<usize>, label: &Vec<i32>, head: &Vec<usize>) -> (r: (
    Partition,
    usize,
    usize,
))
    requires
        fa.wf(),
        fa.spec_deterministic(),
        fa.q > 0,
        trans_ok(fa, tail@, label@, head@),
    ensures
        r.0.perm(),
        r.0.n() == fa.q,
        r.0.z == 1,
        r.0.first@.len() == fa.q,
        r.0.past@.len() == fa.q,
        r.0.first@[0] == 0,
        forall|x: int| 0 <= x < fa.q ==> #[trigger] r.0.set_of@[x] == 0,
        r.2 <= r.1 <= fa.q,
        forall|pos: int| 0 <= pos < r.1 ==> #[trigger] has_word(fa, r.0.elems@[pos] as int),
        forall|t: int|
            0 <= t < tail@.len() && r.0.loc@[head@[t] as int] < r.1 ==> #[trigger] r.0.loc@[tail@[t] as int]
                < r.1,
        forall|x: int| 0 <= x < fa.q ==> (fa.accepting(x) <==> #[trigger] r.0.loc@[x] < r.2),
{
    let n = fa.q;
    let nt = tail.len();
    let mut blocks = Partition::init(n);
    let ghost b0 = blocks;
    let mut rr: usize = 0;
    let mut q: usize = 0;
    while q < n
        invariant
            n == fa.q,
            fa.wf(),
            fa.spec_deterministic(),
            q <= n,
            rr <= q,
            blocks.perm(),
            blocks.n() == n,
            blocks.z == b0.z,
            blocks.set_of == b0.set_of,
            blocks.first == b0.first,
            blocks.past == b0.past,
            forall|pos: int| 0 <= pos < rr ==> #[trigger] has_word(fa, blocks.elems@[pos] as int),
            forall|x: int| 0 <= x < n ==> (#[trigger] blocks.loc@[x] < rr <==> x < q && fa.accepting(x)),
        decreases n - q,
    {
        if fa.is_accepting(q) {
            let ghost pre = blocks;
            let ghost rr0 = rr;
            reach(&mut blocks, &mut rr, q);
            proof {
                assert(pre.loc@[q as int] >= rr0);
                assert forall|x: int| 0 <= x < n implies (#[trigger] blocks.loc@[x] < rr <==> x < q + 1
                    && fa.accepting(x)) by {
                    if x == q as int {
                    } else if pre.loc@[x] < rr0 {
                        assert(blocks.loc@[x] == pre.loc@[x]);
                    } else {
                        if blocks.loc@[x] < rr0 {
                            assert(blocks.loc@[x] == pre.loc@[x]);
                        }
                        assert(blocks.elems@[rr0 as int] == q);
                        if blocks.loc@[x] == rr0 {
                            assert(blocks.elems@[blocks.loc@[x] as int] == x);
                        }
                    }
                }
                lemma_accepting_word(fa, q as int);
                assert forall|pos: int| 0 <= pos < rr implies #[trigger] has_word(fa, blocks.elems@[pos] as int) by {
                    if pos < rr0 {
                        assert(blocks.elems@[pos] == pre.elems@[pos]);
                    } else {
                        assert(blocks.elems@[pos] == q);
                    }
                }
            }
        }
        q = q + 1;
    }
    let nf = rr;
    let mut af: Vec<usize> = vec![0; n];
    af.push(0);
    let mut adj: Vec<usize> = vec![0; nt];
    proof {
        assert forall|t: int| 0 <= t < head@.len() implies #[trigger] head@[t] < n by {
            assert(tail@[t] < fa.q);
        }
    }
    make_adjacent(head, n, &mut af, &mut adj);
    let mut i: usize = 0;
    while i < rr
        invariant
            n == fa.q,
            nt == tail@.len(),
            fa.wf(),
            fa.spec_deterministic(),
            trans_ok(fa, tail@, label@, head@),
            adj_ok(head@, n as int, af@, adj@),
            nf <= rr <= n,
            i <= rr,
            blocks.perm(),
            blocks.n() == n,
            blocks.z == b0.z,
            blocks.set_of == b0.set_of,
            blocks.first == b0.first,
            blocks.past == b0.past,
            forall|pos: int| 0 <= pos < rr ==> #[trigger] has_word(fa, blocks.elems@[pos] as int),
            forall|t: int|
                0 <= t < nt && blocks.loc@[head@[t] as int] < i ==> #[trigger] blocks.loc@[tail@[t] as int]
                    < rr,
            forall|x: int| 0 <= x < n ==> (fa.accepting(x) <==> #[trigger] blocks.loc@[x] < nf),
        decreases n - i,
    {
        let ghost bi = blocks;
        let ghost ri = rr;
        reach_predecessors(fa, tail, label, head, &af, &adj, &mut blocks, &mut rr, i);
        proof {
            assert forall|x: int| 0 <= x < n implies (fa.accepting(x) <==> #[trigger] blocks.loc@[x] < nf) by {
                if bi.loc@[x] < ri {
                    assert(blocks.loc@[x] == bi.loc@[x]);
                } else if blocks.loc@[x] < nf {
                    let pp = blocks.loc@[x] as int;
                    assert(blocks.elems@[pp] == x);
                    assert(blocks.elems@[pp] == bi.elems@[pp]);
                    assert(bi.loc@[bi.elems@[pp] as int] == pp);
                }
            }
            assert forall|t: int|
                0 <= t < nt && blocks.loc@[head@[t] as int] < i + 1 implies #[trigger] blocks.loc@[tail@[t] as int]
                < rr by {
                let h = head@[t] as int;
                assert(h < n) by {
                    assert(tail@[t] < fa.q);
                }
                assert(blocks.loc@[h] == bi.loc@[h]);
                if bi.loc@[h] < i {
                    assert(bi.loc@[tail@[t] as int] < ri);
                    assert(blocks.loc@[tail@[t] as int] == bi.loc@[tail@[t] as int]);
                } else {
                    assert(bi.elems@[bi.loc@[h] as int] == h);
                }
            }
        }
        i = i + 1;
    }
    (blocks, rr, nf)
}

/// The transitions whose head lies in the reached prefix `elems[..rr]`, in their
/// original order.
#[verifier::spinoff_prover]
#[verifier::rlimit(30)]
fn keep_coreachable(
    fa: &Fa,
    blocks: &Partition,
    rr: usize,
    tail: &Vec<usize>,
    label: &Vec<i32>,
    head: &Vec<usize>,
) -> (r: (Vec<usize>, Vec<i32>, Vec<usize>))
    requires
        fa.wf(),
        trans_ok(fa, tail@, label@, head@),
        blocks.perm(),
        blocks.n() == fa.q,
        rr <= fa.q,
        forall|t: int|
            0 <= t < tail@.len() && blocks.loc@[head@[t] as int] < rr ==> #[trigger] blocks.loc@[tail@[t] as int]
                < rr,
    ensures
        trans_ok(fa, r.0@, r.1@, r.2@),
        forall|t: int|
            0 <= t < r.0@.len() ==> #[trigger] blocks.loc@[r.0@[t] as int] < rr && blocks.loc@[r.2@[t] as int]
                < rr,
        forall|t: int|
            0 <= t < tail@.len() && blocks.loc@[#[trigger] head@[t] as int] < rr ==> exists|k: int|
                #![trigger r.0@[k]]
                0 <= k < r.0@.len() && r.0@[k] == tail@[t] && r.1@[k] == label@[t] && r.2@[k] == head@[t],
{
    let nt = tail.len();
    let mut t2: Vec<usize> = Vec::new();
    let mut l2: Vec<i32> = Vec::new();
    let mut h2: Vec<usize> = Vec::new();
    let ghost mut orig: Seq<int> = Seq::empty();
    let mut t: usize = 0;
    while t < nt
        invariant
            nt == tail@.len(),
            fa.wf(),
            trans_ok(fa, tail@, label@, head@),
            blocks.perm(),
            blocks.n() == fa.q,
            t <= nt,
            t2@.len() == orig.len(),
            l2@.len() == orig.len(),
            h2@.len() == orig.len(),
            forall|k: int| 0 <= k < orig.len() ==> 0 <= #[trigger] orig[k] < t,
            forall|a: int, b: int| 0 <= a < b < orig.len() ==> #[trigger] orig[a] < #[trigger] orig[b],
            forall|k: int|
                0 <= k < orig.len() ==> #[trigger] t2@[k] == tail@[orig[k]] && l2@[k] == label@[orig[k]]
                    && h2@[k] == head@[orig[k]],
            forall|k: int|
                0 <= k < orig.len() ==> #[trigger] blocks.loc@[h2@[k] as int] < rr && blocks.loc@[t2@[k] as int]
                    < rr,
            forall|t3: int|
                0 <= t3 < tail@.len() && blocks.loc@[head@[t3] as int] < rr ==> #[trigger] blocks.loc@[tail@[t3] as int]
                    < rr,
            forall|t3: int|
                0 <= t3 < t && blocks.loc@[#[trigger] head@[t3] as int] < rr ==> exists|k: int|
                    #![trigger orig[k]]
                    0 <= k < orig.len() && orig[k] == t3,
        decreases nt - t,
    {
        let h = head[t];
        proof {
            assert(tail@[t as int] < fa.q);
        }
        if blocks.loc[h] < rr {
            let ghost t2o = t2@;
            let ghost l2o = l2@;
            let ghost h2o = h2@;
            t2.push(tail[t]);
            l2.push(label[t]);
            h2.push(h);
            proof {
                let ghost o0 = orig;
                orig = orig.push(t as int);
                assert forall|k: int|
                    0 <= k < orig.len() implies #[trigger] t2@[k] == tail@[orig[k]] && l2@[k] == label@[orig[k]]
                        && h2@[k] == head@[orig[k]] by {
                    if k < o0.len() {
                        assert(t2@[k] == t2o[k]);
                        assert(l2@[k] == l2o[k]);
                        assert(h2@[k] == h2o[k]);
                        assert(orig[k] == o0[k]);
                    }
                }
                assert(blocks.loc@[tail@[t as int] as int] < rr);
                assert(orig[o0.len() as int] == t);
                assert forall|t3: int|
                    0 <= t3 < t + 1 && blocks.loc@[#[trigger] head@[t3] as int] < rr implies exists|k: int|
                        #![trigger orig[k]]
                        0 <= k < orig.len() && orig[k] == t3 by {
                    if t3 < t {
                        let k = choose|k: int| #![trigger o0[k]] 0 <= k < o0.len() && o0[k] == t3;
                        assert(orig[k] == t3);
                    }
                }
            }
        }
        t = t + 1;
    }
    proof {
        assert forall|k: int|
            0 <= k < t2@.len() implies #[trigger] t2@[k] < fa.q && h2@[k] < fa.q && fa.row(t2@[k] as int).contains_key(
            l2@[k],
        ) && fa.dests(t2@[k] as int, l2@[k]).contains(h2@[k]) by {
            assert(tail@[orig[k]] < fa.q);
        }
        assert forall|a: int, b: int|
            0 <= a < t2@.len() && 0 <= b < t2@.len() && a != b && #[trigger] t2@[a] == #[trigger] t2@[b] implies l2@[a]
            != l2@[b] by {
            if a < b {
                assert(orig[a] < orig[b]);
            } else {
                assert(orig[b] < orig[a]);
            }
            assert(tail@[orig[a]] == tail@[orig[b]]);
        }
        assert forall|t3: int|
            0 <= t3 < tail@.len() && blocks.loc@[#[trigger] head@[t3] as int] < rr implies exists|k: int|
                #![trigger t2@[k]]
                0 <= k < t2@.len() && t2@[k] == tail@[t3] && l2@[k] == label@[t3] && h2@[k] == head@[t3] by {
            let k = choose|k: int| #![trigger orig[k]] 0 <= k < orig.len() && orig[k] == t3;
            assert(t2@[k] == tail@[orig[k]]);
        }
    }
    (t2, l2, h2)
}

/// `row` holds exactly the transitions of state `q`, each leading to the block of its
/// destination.
spec fn row_of(row: Map<i32, Vec<usize>>, q: int, blocks: &Partition, tail: Seq<usize>, label: Seq<i32>, head: Seq<usize>) -> bool {
    &&& forall|t: int|
        #![trigger tail[t]]
        0 <= t < tail.len() && tail[t] == q ==> row.contains_key(label[t]) && row[label[t]]@ == seq![
            blocks.set_of@[head[t] as int],
        ]
    &&& forall|sym: i32| #[trigger]
        row.contains_key(sym) ==> exists|t: int| #![trigger tail[t]] 0 <= t < tail.len() && tail[t] == q && label[t] == sym
}

/// The first `b` rows and outputs are those of the first states of the blocks.
spec fn rows_of_blocks(
    d: Seq<BTreeMap<i32, Vec<usize>>>,
    o: Seq<i32>,
    blocks: &Partition,
    nf: int,
    tail: Seq<usize>,
    label: Seq<i32>,
    head: Seq<usize>,
    b: int,
) -> bool {
    forall|k: int|
        0 <= k < b ==> row_of(#[trigger] d[k]@, blocks.elems@[blocks.first@[k] as int] as int, blocks, tail, label, head)
            && o[k] == (if blocks.first@[k] < nf { 1i32 } else { 0i32 })
}

/// Each state `b` of `m` has the transitions of the first state of block `b`, and
/// accepts when that state lies among the first `nf` positions.
spec fn quotient_of(m: &Fa, blocks: &Partition, nf: int, tail: Seq<usize>, label: Seq<i32>, head: Seq<usize>) -> bool {
    forall|b: int|
        0 <= b < m.q ==> row_of(#[trigger] m.d@[b]@, blocks.elems@[blocks.first@[b] as int] as int, blocks, tail, label, head)
            && m.o@[b] == (if blocks.first@[b] < nf { 1i32 } else { 0i32 })
}

/// The transitions of state `q` as a row of the quotient automaton: each symbol maps
/// to the block of its destination.
fn quotient_row(
    q: usize,
    blocks: &Partition,
    tail: &Vec<usize>,
    label: &Vec<i32>,
    head: &Vec<usize>,
    af: &Vec<usize>,
    adj: &Vec<usize>,
    Ghost(rr): Ghost<int>,
) -> (row: BTreeMap<i32, Vec<usize>>)
    requires
        blocks.perm(),
        blocks.sets(rr),
        q < blocks.n(),
        trans_in(blocks, blocks.n(), rr, tail@, label@, head@),
        adj_ok(tail@, blocks.n(), af@, adj@),
    ensures
        forall|sym: i32|
            #[trigger] row@.contains_key(sym) ==> row@[sym]@.len() == 1 && row@[sym]@[0] < blocks.z,
        row_of(row@, q as int, blocks, tail@, label@, head@),
{
    let ghost n = blocks.n();
    let ghost nt = tail@.len() as int;
    proof {
        lemma_adj_basic(tail@, n, af@, adj@);
        lemma_af_mono(af@, n, q + 1, n);
    }
    let bn = blocks.elems.len();
    let lo = af[q];
    let hi = af[q + 1];
    let mut row: BTreeMap<i32, Vec<usize>> = BTreeMap::new();
    let mut j: usize = lo;
    while j < hi
        invariant
            blocks.perm(),
            blocks.sets(rr),
            blocks.n() == n,
            trans_in(blocks, n, rr, tail@, label@, head@),
            adj_ok(tail@, n, af@, adj@),
            lo <= j <= hi,
            hi <= nt,
            nt == tail@.len(),
            forall|sym: i32|
                #[trigger] row@.contains_key(sym) ==> row@[sym]@.len() == 1 && row@[sym]@[0] < blocks.z,
            af@.len() == n + 1,
            q < n,
            af@[q as int] == lo,
            af@[q + 1] == hi,
            forall|j2: int|
                lo <= j2 < j ==> row@.contains_key(label@[#[trigger] adj@[j2] as int]) && row@[label@[adj@[j2] as int]]@
                    == seq![blocks.set_of@[head@[adj@[j2] as int] as int]],
            forall|sym: i32| #[trigger]
                row@.contains_key(sym) ==> exists|j2: int| #![trigger adj@[j2]] lo <= j2 < j && label@[adj@[j2] as int] == sym,
        decreases hi - j,
    {
        proof {
            lemma_adj_basic(tail@, n, af@, adj@);
            lemma_adj_bucket(tail@, n, af@, adj@, q as int, j as int);
        }
        let ghost row0 = row@;
        let t = adj[j];
        let h = head[t];
        let ghost ph = blocks.loc@[h as int] as int;
        proof {
            assert(tail@[t as int] < n);
            assert(blocks.owner(ph) < blocks.z);
            assert(blocks.elems@[ph] == h);
        }
        let dest = blocks.set_of[h];
        let mut v: Vec<usize> = Vec::new();
        v.push(dest);
        row.insert(label[t], v);
        proof {
            assert(v@ == seq![dest]);
            assert forall|j2: int|
                lo <= j2 < j + 1 implies row@.contains_key(label@[#[trigger] adj@[j2] as int]) && row@[label@[adj@[j2] as int]]@
                == seq![blocks.set_of@[head@[adj@[j2] as int] as int]] by {
                if j2 < j {
                    lemma_adj_bucket(tail@, n, af@, adj@, q as int, j2);
                    if adj@[j2] == t {
                        lemma_adj_inj(tail@, n, af@, adj@, j2, j as int);
                    }
                    assert(adj@[j2] != t);
                    assert(tail@[adj@[j2] as int] == tail@[t as int]);
                    assert(label@[adj@[j2] as int] != label@[t as int]);
                }
            }
            assert forall|sym: i32| #[trigger] row@.contains_key(sym) implies exists|j2: int|
                #![trigger adj@[j2]]
                lo <= j2 < j + 1 && label@[adj@[j2] as int] == sym by {
                if sym != label@[t as int] {
                    assert(row0.contains_key(sym));
                    let j2 = choose|j2: int| #![trigger adj@[j2]] lo <= j2 < j && label@[adj@[j2] as int] == sym;
                    assert(lo <= j2 < j + 1);
                } else {
                    assert(adj@[j as int] == t);
                }
            }
        }
        j = j + 1;
    }
    proof {
        assert forall|t: int| #![trigger tail@[t]] 0 <= t < tail@.len() && tail@[t] == q implies row@.contains_key(label@[t])
            && row@[label@[t]]@ == seq![blocks.set_of@[head@[t] as int]] by {
            let j2 = lemma_adj_surj(tail@, n, af@, adj@, t);
            assert(lo <= j2 < hi);
        }
        assert forall|sym: i32| #[trigger] row@.contains_key(sym) implies exists|t: int|
            #![trigger tail@[t]]
            0 <= t < tail@.len() && tail@[t] == q && label@[t] == sym by {
            let j2 = choose|j2: int| #![trigger adj@[j2]] lo <= j2 < hi && label@[adj@[j2] as int] == sym;
            lemma_adj_bucket(tail@, n, af@, adj@, q as int, j2);
            let t = adj@[j2] as int;
            assert(tail@[t] == q);
        }
    }
    row
}

/// The quotient automaton of the blocks: block `b` becomes state `b`, with the
/// transitions of the first state of its run, accepting when that state lies among
/// the first `nf` positions (the accepting states).
#[verifier::spinoff_prover]
#[verifier::rlimit(40)]
fn quotient(
    fa: &Fa,
    blocks: &Partition,
    nf: usize,
    tail: &Vec<usize>,
    label: &Vec<i32>,
    head: &Vec<usize>,
    Ghost(rr): Ghost<int>,
) -> (m: Fa)
    requires
        fa.wf(),
        blocks.perm(),
        blocks.n() == fa.q,
        blocks.sets(rr),
        1 <= rr <= fa.q,
        1 <= blocks.z,
        trans_in(blocks, fa.q as int, rr, tail@, label@, head@),
        fa.q0 < fa.q,
        blocks.loc@[fa.q0 as int] < rr,
    ensures
        is_partial_dfa(&m),
        m.q == blocks.z,
        m.q0 == blocks.set_of@[fa.q0 as int],
        m.alphabet_size == fa.alphabet_size,
        m.true_false is None,
        quotient_of(&m, blocks, nf as int, tail@, label@, head@),
{
    let n = fa.q;
    let nt = tail.len();
    let mut af: Vec<usize> = vec![0; n];
    af.push(0);
    let mut adj: Vec<usize> = vec![0; nt];
    make_adjacent(tail, n, &mut af, &mut adj);
    let z = blocks.z;
    let mut d: Vec<BTreeMap<i32, Vec<usize>>> = Vec::new();
    let mut o: Vec<i32> = Vec::new();
    proof {
        assert(blocks.owner(0) < blocks.z);
    }
    let mut b: usize = 0;
    while b < z
        invariant
            n == fa.q,
            blocks.perm(),
            blocks.sets(rr),
            blocks.n() == n,
            1 <= rr <= n,
            z == blocks.z,
            blocks.owner(0) < blocks.z,
            trans_in(blocks, n as int, rr, tail@, label@, head@),
            adj_ok(tail@, n as int, af@, adj@),
            b <= z,
            d@.len() == b,
            o@.len() == b,
            forall|k: int| 0 <= k < b ==> #[trigger] o@[k] == 0 || o@[k] == 1,
            forall|k: int, sym: i32|
                0 <= k < b && #[trigger] d@[k]@.contains_key(sym) ==> d@[k]@[sym]@.len() == 1 && d@[k]@[sym]@[0]
                    < z,
            rows_of_blocks(d@, o@, blocks, nf as int, tail@, label@, head@, b as int),
        decreases z - b,
    {
        let fb = blocks.first[b];
        proof {
            if blocks.z > 1 {
                assert(blocks.first@[b as int] < blocks.past@[b as int]);
            } else {
                assert(b == 0);
                assert(blocks.first@[blocks.owner(0)] <= 0);
            }
        }
        let q = blocks.elems[fb];
        let row = quotient_row(q, blocks, tail, label, head, &af, &adj, Ghost(rr));
        let ghost d0 = d@;
        let ghost o0 = o@;
        d.push(row);
        let out: i32 = if fb < nf { 1 } else { 0 };
        o.push(out);
        proof {
            assert(d@[b as int] == row);
            assert(o@[b as int] == out);
            assert(row_of(row@, q as int, blocks, tail@, label@, head@));
            assert(blocks.elems@[blocks.first@[b as int] as int] == q);
            assert forall|k: int|
                0 <= k < b + 1 implies (row_of(#[trigger] d@[k]@, blocks.elems@[blocks.first@[k] as int] as int, blocks, tail@, label@, head@)
                && o@[k] == (if blocks.first@[k] < nf as int { 1i32 } else { 0i32 })) by {
                if k < b {
                    assert(d@[k] == d0[k]);
                    assert(o@[k] == o0[k]);
                    assert(row_of(d0[k]@, blocks.elems@[blocks.first@[k] as int] as int, blocks, tail@, label@, head@));
                } else {
                    assert(d@[k] == row);
                }
            }
            assert(rows_of_blocks(d@, o@, blocks, nf as int, tail@, label@, head@, b + 1));
            assert forall|k: int, sym: i32|
                0 <= k < b + 1 && #[trigger] d@[k]@.contains_key(sym) implies d@[k]@[sym]@.len() == 1 && d@[k]@[sym]@[0]
                < z by {
                if k < b {
                    assert(d@[k] == d0[k]);
                }
            }
        }
        b = b + 1;
    }
    let bn = blocks.elems.len();
    let ghost pq = blocks.loc@[fa.q0 as int] as int;
    proof {
        assert(blocks.owner(pq) < blocks.z);
        assert(blocks.elems@[pq] == fa.q0);
    }
    let q0 = blocks.set_of[fa.q0];
    let m = Fa::with_states(q0, z, fa.alphabet_size, o, d);
    proof {
        assert forall|p: int, sym: i32, k: int|
            #![trigger m.dests(p, sym)[k]]
            0 <= p < m.q && m.row(p).contains_key(sym) && 0 <= k < m.dests(p, sym).len() implies m.dests(p, sym)[k]
            < m.q by {
            assert(d@[p]@.contains_key(sym));
        }
        assert forall|p: int, sym: i32|
            0 <= p < m.q && #[trigger] m.row(p).contains_key(sym) implies m.dests(p, sym).len() == 1 by {
            assert(d@[p]@.contains_key(sym));
        }
        assert forall|b2: int| 0 <= b2 < m.q implies (row_of(#[trigger] m.d@[b2]@, blocks.elems@[blocks.first@[b2] as int] as int, blocks, tail@, label@, head@)
            && m.o@[b2] == (if blocks.first@[b2] < nf as int { 1i32 } else { 0i32 })) by {
            assert(m.d@[b2]@ == d@[b2]@);
            assert(m.o@[b2] == o@[b2]);
            assert(row_of(d@[b2]@, blocks.elems@[blocks.first@[b2] as int] as int, blocks, tail@, label@, head@));
        }
        assert(quotient_of(&m, blocks, nf as int, tail@, label@, head@));
    }
    m
}

/// Dense ranks of the labels: `key[t]` is the position of `label[t]` among the
/// distinct labels in increasing order, and `nr` is the number of distinct labels.
#[verifier::rlimit(40)]
fn label_ranks(label: &Vec<i32>) -> (r: (Vec<usize>, usize))
    ensures
        r.0@.len() == label@.len(),
        forall|t: int| 0 <= t < label@.len() ==> #[trigger] r.0@[t] < r.1,
        forall|t1: int, t2: int|
            0 <= t1 < label@.len() && 0 <= t2 < label@.len() && #[trigger] r.0@[t1] == #[trigger] r.0@[t2]
                ==> label@[t1] == label@[t2],
        forall|t1: int, t2: int|
            0 <= t1 < label@.len() && 0 <= t2 < label@.len() && #[trigger] label@[t1] == #[trigger] label@[t2]
                ==> r.0@[t1] == r.0@[t2],
        forall|x: int| 0 <= x < r.1 ==> #[trigger] key_used(r.0@, x),
{
    let nt = label.len();
    let mut distinct: BTreeSet<i32> = BTreeSet::new();
    for t in 0..nt
        invariant
            nt == label@.len(),
            distinct@ == Set::new(|l: i32| exists|t2: int| 0 <= t2 < t && label@[t2] == l),
    {
        distinct.insert(label[t]);
        assert(distinct@ =~= Set::new(|l: i32| exists|t2: int| 0 <= t2 < t + 1 && label@[t2] == l)) by {
            assert forall|l: i32| #[trigger] distinct@.contains(l) implies exists|t2: int| 0 <= t2 < t + 1 && label@[t2] == l by {
                if l == label@[t as int] {
                    assert(label@[t as int] == l);
                }
            }
        }
    }
    let ghost labels = distinct@;
    let dl = distinct.len();
    let ghost ks = vstd::std_specs::btree::spec_btree_keys_iter(&distinct).remaining();
    let mut rank: BTreeMap<i32, usize> = BTreeMap::new();
    let mut nr: usize = 0;
    for l in it: distinct.iter()
        invariant
            it.seq() == ks,
            ks == vstd::std_specs::btree::spec_btree_keys_iter(&distinct).remaining(),
            ks.len() == dl,
            distinct@ == labels,
            nr == it.index(),
            rank@.dom() == Set::new(|x: i32| exists|i: int| 0 <= i < nr && *ks[i] == x),
            forall|i: int| 0 <= i < nr ==> rank@[*#[trigger] ks[i]] == i,
    {
        proof {
            assert(l == ks[nr as int]);
        }
        rank.insert(*l, nr);
        proof {
            assert(ks.no_duplicates());
            assert forall|i: int| 0 <= i < nr + 1 implies rank@[*#[trigger] ks[i]] == i by {
                if i < nr {
                    assert(ks[i] != ks[nr as int]);
                }
            }
            assert(rank@.dom() =~= Set::new(|x: i32| exists|i: int| 0 <= i < nr + 1 && *ks[i] == x)) by {
                assert forall|x: i32| #[trigger] rank@.dom().contains(x) implies exists|i: int| 0 <= i < nr + 1 && *ks[i] == x by {
                    if x == *ks[nr as int] {
                    }
                }
            }
        }
        nr = nr + 1;
    }
    proof {
        assert(nr == ks.len());
        assert forall|t: int| 0 <= t < nt implies rank@.contains_key(#[trigger] label@[t]) by {
            assert(labels.contains(label@[t]));
            assert(ks.unref().to_set().contains(label@[t]));
            let i = choose|i: int| 0 <= i < ks.unref().len() && ks.unref()[i] == label@[t];
            assert(*ks[i] == label@[t]);
        }
    }
    let mut key: Vec<usize> = Vec::new();
    for t in 0..nt
        invariant
            nt == label@.len(),
            key@.len() == t,
            nr == ks.len(),
            forall|t2: int| 0 <= t2 < nt ==> rank@.contains_key(#[trigger] label@[t2]),
            rank@.dom() == Set::new(|x: i32| exists|i: int| 0 <= i < nr && *ks[i] == x),
            forall|i: int| 0 <= i < nr ==> rank@[*#[trigger] ks[i]] == i,
            forall|t2: int| 0 <= t2 < t ==> #[trigger] key@[t2] == rank@[label@[t2]] && key@[t2] < nr,
    {
        let r = *rank.get(&label[t]).unwrap();
        proof {
            assert(rank@.contains_key(label@[t as int]));
            let i = choose|i: int| 0 <= i < nr && *ks[i] == label@[t as int];
            assert(rank@[*ks[i]] == i);
        }
        key.push(r);
    }
    proof {
        assert forall|t1: int, t2: int|
            0 <= t1 < nt && 0 <= t2 < nt && #[trigger] key@[t1] == #[trigger] key@[t2] implies label@[t1]
            == label@[t2] by {
            let i1 = choose|i: int| 0 <= i < nr && *ks[i] == label@[t1];
            let i2 = choose|i: int| 0 <= i < nr && *ks[i] == label@[t2];
            assert(rank@[*ks[i1]] == i1);
            assert(rank@[*ks[i2]] == i2);
        }
        assert forall|x: int| 0 <= x < nr implies #[trigger] key_used(key@, x) by {
            assert(labels.contains(*ks[x])) by {
                assert(ks.unref().to_set() == labels);
                assert(ks.unref()[x] == *ks[x]);
            }
            let t = choose|t: int| 0 <= t < nt && label@[t] == *ks[x];
            assert(key@[t] == x);
            assert(0 <= t < key@.len() && key@[t] == x);
        }
    }
    (key, nr)
}

/// The partition of the transitions `0..key.len()` by key, in increasing key order,
/// each run listing its transitions in increasing order.
#[verifier::rlimit(40)]
fn cords_from_keys(key: Vec<usize>, nr: usize) -> (cords: Partition)
    requires
        forall|t: int| 0 <= t < key@.len() ==> #[trigger] key@[t] < nr,
        forall|x: int| 0 <= x < nr ==> #[trigger] key_used(key@, x),
    ensures
        cords.perm(),
        cords.n() == key@.len(),
        cords.sets(key@.len() as int),
        cords.set_of@ == key@,
{
    let nt = key.len();
    let mut af: Vec<usize> = vec![0; nr];
    af.push(0);
    let mut adj: Vec<usize> = vec![0; nt];
    make_adjacent(&key, nr, &mut af, &mut adj);
    proof {
        lemma_runs_nonempty(key@, nr as int, af@, adj@);
    }
    let mut loc: Vec<usize> = vec![0; nt];
    for j in 0..nt
        invariant
            nt == key@.len(),
            loc@.len() == nt,
            adj_ok(key@, nr as int, af@, adj@),
            af@.len() == nr + 1,
            nr <= nt,
            forall|r: int| 0 <= r < nr ==> #[trigger] af@[r] < af@[r + 1],
            forall|j2: int| 0 <= j2 < j ==> #[trigger] loc@[adj@[j2] as int] == j2,
    {
        proof {
            lemma_adj_basic(key@, nr as int, af@, adj@);
        }
        let a = adj[j];
        loc.set(a, j);
        assert forall|j2: int| 0 <= j2 < j + 1 implies #[trigger] loc@[adj@[j2] as int] == j2 by {
            if j2 < j {
                if adj@[j2] == adj@[j as int] {
                    lemma_adj_inj(key@, nr as int, af@, adj@, j2, j as int);
                }
            }
        }
    }
    let (first, past) = runs_from_bounds(&af, nr, nt);
    let cords = Partition { z: nr, elems: adj, loc, set_of: key, first, past };
    proof {
        lemma_cords_ok(&cords, af@);
    }
    cords
}

/// The runs of a counting sort by key form a partition of all the positions.
#[verifier::rlimit(100)]
#[verifier::spinoff_prover]
proof fn lemma_cords_ok(cords: &Partition, af: Seq<usize>)
    requires
        cords.elems@.len() == cords.set_of@.len(),
        cords.loc@.len() == cords.set_of@.len(),
        cords.first@.len() == cords.set_of@.len(),
        cords.past@.len() == cords.set_of@.len(),
        cords.z <= cords.set_of@.len(),
        forall|t: int| 0 <= t < cords.set_of@.len() ==> #[trigger] cords.set_of@[t] < cords.z,
        adj_ok(cords.set_of@, cords.z as int, af, cords.elems@),
        forall|j: int| 0 <= j < cords.set_of@.len() ==> #[trigger] cords.loc@[cords.elems@[j] as int] == j,
        forall|x: int| 0 <= x < cords.z ==> #[trigger] cords.first@[x] == af[x] && cords.past@[x] == af[x + 1],
        forall|x: int| 0 <= x < cords.z ==> #[trigger] af[x] < af[x + 1],
    ensures
        cords.perm(),
        cords.sets(cords.set_of@.len() as int),
{
    let nt = cords.set_of@.len() as int;
    let nr = cords.z as int;
    let key = cords.set_of@;
    let adj = cords.elems@;
    lemma_adj_basic(key, nr, af, adj);
    assert forall|e: int| 0 <= e < nt implies #[trigger] cords.loc@[e] < nt && cords.elems@[cords.loc@[e] as int] == e by {
        let j = lemma_adj_surj(key, nr, af, adj, e);
        lemma_af_mono(af, nr, key[e] + 1, nr);
        assert(cords.loc@[adj[j] as int] == j);
    }
    assert forall|s: int| 0 <= s < nr implies #[trigger] cords.first@[s] <= cords.past@[s] <= nt by {
        lemma_af_mono(af, nr, s + 1, nr);
    }
    assert forall|s: int, pos: int|
        #![trigger cords.first@[s], cords.owner(pos)]
        0 <= s < nr && cords.first@[s] <= pos < cords.past@[s] implies cords.owner(pos) == s by {
        lemma_adj_bucket(key, nr, af, adj, s, pos);
    }
    assert forall|pos: int| 0 <= pos < nt implies #[trigger] cords.owner(pos) < nr && cords.first@[cords.owner(pos)]
        <= pos < cords.past@[cords.owner(pos)] by {
        let q = lemma_find_bucket(af, nr, pos);
        lemma_adj_bucket(key, nr, af, adj, q, pos);
    }
}

/// When every key is used, every bucket of a counting sort is nonempty, so there are
/// no more buckets than indices.
#[verifier::rlimit(100)]
#[verifier::spinoff_prover]
proof fn lemma_runs_nonempty(key: Seq<usize>, nr: int, af: Seq<usize>, adj: Seq<usize>)
    requires
        0 <= nr,
        adj_ok(key, nr, af, adj),
        forall|t: int| 0 <= t < key.len() ==> #[trigger] key[t] < nr,
        forall|x: int| 0 <= x < nr ==> #[trigger] key_used(key, x),
    ensures
        nr <= key.len(),
        af.len() == nr + 1,
        forall|r: int| 0 <= r < nr ==> #[trigger] af[r] < af[r + 1],
{
    let nt = key.len() as int;
    lemma_adj_basic(key, nr, af, adj);
    assert forall|r: int| 0 <= r < nr implies #[trigger] af[r] < af[r + 1] by {
        assert(key_used(key, r));
        let t = choose|t: int| 0 <= t < nt && key[t] == r;
        let j = lemma_adj_surj(key, nr, af, adj, t);
        assert(af[key[t] as int] <= j < af[key[t] + 1]);
    }
    let f = |r: int| af[r] as int;
    assert forall|a: int, b: int| 0 <= a < nr && 0 <= b < nr && a != b implies #[trigger] f(a) != #[trigger] f(b) by {
        assert(af[a] < af[a + 1]);
        assert(af[b] < af[b + 1]);
        lemma_adj_bucket(key, nr, af, adj, a, af[a] as int);
        lemma_adj_bucket(key, nr, af, adj, b, af[b] as int);
    }
    assert forall|a: int| 0 <= a < nr implies 0 <= #[trigger] f(a) < nt by {
        assert(af[a] < af[a + 1]);
        lemma_af_mono(af, nr, a + 1, nr);
    }
    lemma_pigeonhole(nr, nt, f);
}

/// Run `r` is `af[r]..af[r + 1]`, for each of the `nr` runs, in vectors of length `nt`.
fn runs_from_bounds(af: &Vec<usize>, nr: usize, nt: usize) -> (r: (Vec<usize>, Vec<usize>))
    requires
        nr <= nt,
        af@.len() == nr + 1,
    ensures
        r.0@.len() == nt,
        r.1@.len() == nt,
        forall|x: int| 0 <= x < nr ==> #[trigger] r.0@[x] == af@[x] && r.1@[x] == af@[x + 1],
{
    let mut first: Vec<usize> = vec![0; nt];
    let mut past: Vec<usize> = vec![0; nt];
    let mut x: usize = 0;
    while x < nr
        invariant
            x <= nr <= nt,
            first@.len() == nt,
            past@.len() == nt,
            af@.len() == nr + 1,
            forall|r2: int| 0 <= r2 < x ==> #[trigger] first@[r2] == af@[r2] && past@[r2] == af@[r2 + 1],
        decreases nr - x,
    {
        let a = af[x];
        let b = af[x + 1];
        let ghost f0 = first@;
        let ghost p0 = past@;
        first.set(x, a);
        past.set(x, b);
        assert forall|r2: int| 0 <= r2 < x + 1 implies #[trigger] first@[r2] == af@[r2] && past@[r2] == af@[r2 + 1] by {
            if r2 < x {
                assert(first@[r2] == f0[r2]);
                assert(past@[r2] == p0[r2]);
                assert(f0[r2] == af@[r2] && p0[r2] == af@[r2 + 1]);
            } else {
                assert(first@[r2] == a);
                assert(past@[r2] == b);
            }
        }
        x = x + 1;
    }
    (first, past)
}

/// Some index carries key `x`.
spec fn key_used(key: Seq<usize>, x: int) -> bool {
    exists|t: int| 0 <= t < key.len() && key[t] == x
}

proof fn lemma_af_mono(af: Seq<usize>, nb: int, a: int, b: int)
    requires
        af.len() == nb + 1,
        0 <= a <= b <= nb,
        forall|x: int| 0 <= x < nb ==> #[trigger] af[x] <= af[x + 1],
    ensures
        af[a] <= af[b],
    decreases b - a,
{
    if a < b {
        lemma_af_mono(af, nb, a, b - 1);
    }
}

/// Everything the quotient `m` of the final blocks needs to accept what `fa` accepts:
/// the kept transitions are those of `fa` between reached states, reaching is closed
/// backwards along transitions and holds every accepting state, the blocks are stable
/// (the heads of a cord lie in one block, and the states of a block agree on every
/// cord), and `m` is built from the first state of each block.
spec fn quotient_facts(
    fa: &Fa,
    m: &Fa,
    blocks: &Partition,
    cords: &Partition,
    tail: Seq<usize>,
    label: Seq<i32>,
    head: Seq<usize>,
    rr: int,
    nf: int,
) -> bool {
    &&& fa.wf()
    &&& fa.spec_deterministic()
    &&& blocks.perm()
    &&& blocks.sets(rr)
    &&& blocks.n() == fa.q
    &&& cords.perm()
    &&& cords.sets(tail.len() as int)
    &&& cords.n() == tail.len()
    &&& trans_ok(fa, tail, label, head)
    &&& trans_in(blocks, fa.q as int, rr, tail, label, head)
    &&& forall|p: int, sym: i32|
        0 <= p < fa.q && #[trigger] fa.row(p).contains_key(sym) && fa.dests(p, sym).len() > 0 && blocks.loc@[p] < rr
            && blocks.loc@[fa.dests(p, sym)[0] as int] < rr ==> exists|t: int|
            #![trigger tail[t]]
            0 <= t < tail.len() && tail[t] == p && label[t] == sym && head[t] == fa.dests(p, sym)[0]
    &&& forall|p: int, sym: i32|
        0 <= p < fa.q && #[trigger] fa.row(p).contains_key(sym) && fa.dests(p, sym).len() > 0 && blocks.loc@[fa.dests(
            p,
            sym,
        )[0] as int] < rr ==> blocks.loc@[p] < rr
    &&& forall|x: int| 0 <= x < fa.q && #[trigger] fa.accepting(x) ==> blocks.loc@[x] < rr
    &&& heads_split(blocks, cords, head, blocks.z as int)
    &&& tails_split(blocks, cords, tail, label, cords.z as int, rr)
    &&& finals_split(blocks, fa, nf, rr)
    &&& quotient_of(m, blocks, nf, tail, label, head)
    &&& m.q == blocks.z
}

/// A transition `t` from a reached state `y`'s block-mate has a counterpart from `y`
/// with the same label whose head lies in the same block.
proof fn lemma_stable_step(
    fa: &Fa,
    m: &Fa,
    blocks: &Partition,
    cords: &Partition,
    tail: Seq<usize>,
    label: Seq<i32>,
    head: Seq<usize>,
    rr: int,
    nf: int,
    t1: int,
    y: int,
) -> (t2: int)
    requires
        quotient_facts(fa, m, blocks, cords, tail, label, head, rr, nf),
        0 <= t1 < tail.len(),
        0 <= y < fa.q,
        blocks.loc@[y] < rr,
        blocks.set_of@[y] == blocks.set_of@[tail[t1] as int],
    ensures
        0 <= t2 < tail.len(),
        tail[t2] == y,
        label[t2] == label[t1],
        blocks.set_of@[head[t2] as int] == blocks.set_of@[head[t1] as int],
{
    lemma_first_of_block(cords, tail.len() as int, t1);
    assert(cords.loc@[t1] < tail.len());
    assert(cords.set_of@[t1] < cords.z);
    let t2 = choose|t2: int|
        #![trigger tail[t2]]
        0 <= t2 < tail.len() && tail[t2] == y && label[t2] == label[t1] && (cords.set_of@[t2] == cords.set_of@[t1]
            || cords.set_of@[t2] >= cords.z);
    lemma_first_of_block(cords, tail.len() as int, t2);
    assert(cords.set_of@[t2] == cords.set_of@[t1]);
    assert(tail[t1] < fa.q);
    let h1 = head[t1] as int;
    let h2 = head[t2] as int;
    lemma_first_of_block(blocks, rr, h1);
    lemma_first_of_block(blocks, rr, h2);
    t2
}

/// Reading `w` from a reached state `p` of `fa` into a reached state, the quotient
/// reads it from the block of `p` into the block of that state.
proof fn lemma_quotient_run_forward(
    fa: &Fa,
    m: &Fa,
    blocks: &Partition,
    cords: &Partition,
    tail: Seq<usize>,
    label: Seq<i32>,
    head: Seq<usize>,
    rr: int,
    nf: int,
    p: int,
    w: Seq<i32>,
)
    requires
        quotient_facts(fa, m, blocks, cords, tail, label, head, rr, nf),
        0 <= p < fa.q,
        run_from(fa, p, w) matches Some(s) && 0 <= s < fa.q && blocks.loc@[s] < rr,
    ensures
        blocks.loc@[p] < rr,
        run_from(m, blocks.set_of@[p] as int, w) == Some(blocks.set_of@[run_from(fa, p, w)->Some_0] as int),
    decreases w.len(),
{
    if w.len() == 0 {
    } else {
        let r = run_from(fa, p, w.drop_last())->Some_0;
        let s = run_from(fa, p, w)->Some_0;
        let a = w.last();
        assert(fa.row(r).contains_key(a) && fa.dests(r, a).len() > 0);
        assert(s == fa.dests(r, a)[0]);
        lemma_run_in_range(fa, p, w.drop_last());
        assert(blocks.loc@[r] < rr);
        lemma_quotient_run_forward(fa, m, blocks, cords, tail, label, head, rr, nf, p, w.drop_last());
        let t = choose|t: int|
            #![trigger tail[t]]
            0 <= t < tail.len() && tail[t] == r && label[t] == a && head[t] == fa.dests(r, a)[0];
        let br = blocks.set_of@[r] as int;
        lemma_first_of_block(blocks, rr, r);
        let q = blocks.elems@[blocks.first@[br] as int] as int;
        assert(blocks.loc@[q] < rr);
        let t2 = lemma_stable_step(fa, m, blocks, cords, tail, label, head, rr, nf, t, q);
        assert(row_of(m.d@[br]@, q, blocks, tail, label, head));
        assert(m.row(br) == m.d@[br]@);
        assert(m.row(br).contains_key(a));
        assert(m.dests(br, a) == seq![blocks.set_of@[head[t2] as int]]);
    }
}



/// Reading `w` in the quotient from the block of a reached state `p` leads to the
/// block of a reached state that `fa` reaches from `p` on `w`.
proof fn lemma_quotient_run_back(
    fa: &Fa,
    m: &Fa,
    blocks: &Partition,
    cords: &Partition,
    tail: Seq<usize>,
    label: Seq<i32>,
    head: Seq<usize>,
    rr: int,
    nf: int,
    p: int,
    w: Seq<i32>,
)
    requires
        quotient_facts(fa, m, blocks, cords, tail, label, head, rr, nf),
        0 <= p < fa.q,
        blocks.loc@[p] < rr,
        run_from(m, blocks.set_of@[p] as int, w) is Some,
    ensures
        run_from(fa, p, w) matches Some(s) && 0 <= s < fa.q && blocks.loc@[s] < rr && blocks.set_of@[s]
            == run_from(m, blocks.set_of@[p] as int, w)->Some_0,
    decreases w.len(),
{
    if w.len() > 0 {
        let a = w.last();
        lemma_quotient_run_back(fa, m, blocks, cords, tail, label, head, rr, nf, p, w.drop_last());
        let r = run_from(fa, p, w.drop_last())->Some_0;
        let bb = blocks.set_of@[r] as int;
        lemma_first_of_block(blocks, rr, r);
        let q = blocks.elems@[blocks.first@[bb] as int] as int;
        assert(row_of(m.d@[bb]@, q, blocks, tail, label, head));
        assert(m.row(bb) == m.d@[bb]@);
        assert(m.row(bb).contains_key(a));
        let t = choose|t: int| #![trigger tail[t]] 0 <= t < tail.len() && tail[t] == q && label[t] == a;
        assert(m.dests(bb, a) == seq![blocks.set_of@[head[t] as int]]);
        let t2 = lemma_stable_step(fa, m, blocks, cords, tail, label, head, rr, nf, t, r);
        assert(fa.row(r).contains_key(a) && fa.dests(r, a).contains(head[t2]));
        assert(fa.dests(r, a).len() <= 1);
        assert(fa.dests(r, a)[0] == head[t2]);
        assert(tail[t2] < fa.q);
    }
}

/// The quotient accepts exactly the words `fa` accepts.
proof fn lemma_quotient_accepts(
    fa: &Fa,
    m: &Fa,
    blocks: &Partition,
    cords: &Partition,
    tail: Seq<usize>,
    label: Seq<i32>,
    head: Seq<usize>,
    rr: int,
    nf: int,
    w: Seq<i32>,
)
    requires
        quotient_facts(fa, m, blocks, cords, tail, label, head, rr, nf),
        m.o@.len() == m.q,
        fa.q0 < fa.q,
        blocks.loc@[fa.q0 as int] < rr,
        m.q0 == blocks.set_of@[fa.q0 as int],
    ensures
        accepts(m, w) == accepts(fa, w),
{
    let p = fa.q0 as int;
    if accepts(fa, w) {
        let s = run_from(fa, p, w)->Some_0;
        assert(blocks.loc@[s] < rr);
        lemma_quotient_run_forward(fa, m, blocks, cords, tail, label, head, rr, nf, p, w);
        lemma_first_of_block(blocks, rr, s);
        let bs = blocks.set_of@[s] as int;
        assert(row_of(m.d@[bs]@, blocks.elems@[blocks.first@[bs] as int] as int, blocks, tail, label, head));
        assert(m.o@[bs] == (if blocks.first@[bs] < nf { 1i32 } else { 0i32 }));
    }
    if accepts(m, w) {
        lemma_quotient_run_back(fa, m, blocks, cords, tail, label, head, rr, nf, p, w);
        let s = run_from(fa, p, w)->Some_0;
        let bs = blocks.set_of@[s] as int;
        lemma_first_of_block(blocks, rr, s);
        assert(row_of(m.d@[bs]@, blocks.elems@[blocks.first@[bs] as int] as int, blocks, tail, label, head));
        assert(m.o@[bs] == (if blocks.first@[bs] < nf { 1i32 } else { 0i32 }));
    }
}

/// Reaching is closed backwards along runs: a run into a reached state starts in one.
proof fn lemma_run_reached(fa: &Fa, blocks: &Partition, rr: int, p: int, w: Seq<i32>)
    requires
        fa.wf(),
        0 <= p < fa.q,
        forall|p2: int, sym: i32|
            0 <= p2 < fa.q && #[trigger] fa.row(p2).contains_key(sym) && fa.dests(p2, sym).len() > 0
                && blocks.loc@[fa.dests(p2, sym)[0] as int] < rr ==> blocks.loc@[p2] < rr,
        run_from(fa, p, w) matches Some(s) && blocks.loc@[s] < rr,
    ensures
        blocks.loc@[p] < rr,
    decreases w.len(),
{
    if w.len() > 0 {
        lemma_run_in_range(fa, p, w.drop_last());
        lemma_run_reached(fa, blocks, rr, p, w.drop_last());
    }
}

/// An automaton whose state `0` has no transitions reads nothing but the empty word
/// from it.
proof fn lemma_run_from_dead(m: &Fa, w: Seq<i32>)
    requires
        m.row(0) == Map::<i32, Vec<usize>>::empty(),
    ensures
        run_from(m, 0, w) == (if w.len() == 0 { Some(0int) } else { None::<int> }),
    decreases w.len(),
{
    if w.len() > 0 {
        lemma_run_from_dead(m, w.drop_last());
    }
}


/// Reached states never leave the reached prefix: the positions from `rr` on hold the
/// same states as before.
proof fn lemma_prefix_same(b1: &Partition, b: &Partition, rr: int)
    requires
        b1.perm(),
        b.perm(),
        b1.n() == b.n(),
        forall|x: int| 0 <= x < b1.n() && b1.loc@[x] >= rr ==> #[trigger] b.loc@[x] == b1.loc@[x],
    ensures
        forall|x: int| 0 <= x < b1.n() ==> (#[trigger] b.loc@[x] < rr <==> b1.loc@[x] < rr),
{
    assert forall|x: int| 0 <= x < b1.n() implies (#[trigger] b.loc@[x] < rr <==> b1.loc@[x] < rr) by {
        if b1.loc@[x] < rr && b.loc@[x] >= rr {
            let pp = b.loc@[x] as int;
            let y = b1.elems@[pp] as int;
            assert(b1.loc@[y] == pp);
            assert(b.loc@[y] == pp);
            assert(b.elems@[pp] == x);
            assert(b.elems@[pp] == y);
        }
    }
}

/// What the refinement relies on about the states reached backwards from the accepting
/// ones (the prefix `elems[..rr]` of `b1`) and about the transitions kept among them.
#[verifier::opaque]
spec fn live_facts(fa: &Fa, b1: &Partition, rr: int, tail: Seq<usize>, label: Seq<i32>, head: Seq<usize>) -> bool {
    &&& fa.wf()
    &&& fa.spec_deterministic()
    &&& b1.perm()
    &&& b1.n() == fa.q
    &&& trans_ok(fa, tail, label, head)
    &&& forall|t: int| 0 <= t < tail.len() ==> #[trigger] b1.loc@[tail[t] as int] < rr && b1.loc@[head[t] as int] < rr
    &&& forall|x: int| 0 <= x < fa.q && b1.loc@[x] < rr ==> #[trigger] has_word(fa, x)
    &&& forall|p: int, sym: i32|
        0 <= p < fa.q && #[trigger] fa.row(p).contains_key(sym) && fa.dests(p, sym).len() > 0 && b1.loc@[fa.dests(
            p,
            sym,
        )[0] as int] < rr ==> b1.loc@[p] < rr && exists|t: int|
            #![trigger tail[t]]
            0 <= t < tail.len() && tail[t] == p && label[t] == sym && head[t] == fa.dests(p, sym)[0]
    &&& forall|x: int| 0 <= x < fa.q && #[trigger] fa.accepting(x) ==> b1.loc@[x] < rr
}

/// The heads of the transitions `t1` and `t2` accept the same words.
spec fn heads_equiv(fa: &Fa, head: Seq<usize>, t1: int, t2: int) -> bool {
    equiv_states(fa, head[t1] as int, head[t2] as int)
}

/// No block separates two reached states that accept the same words.
#[verifier::opaque]
spec fn blocks_respect(fa: &Fa, b1: &Partition, blocks: &Partition, rr: int) -> bool {
    forall|x: int, y: int|
        0 <= x < fa.q && 0 <= y < fa.q && b1.loc@[x] < rr && b1.loc@[y] < rr && #[trigger] equiv_states(fa, x, y)
            ==> blocks.set_of@[x] == blocks.set_of@[y]
}

/// No cord separates two transitions with the same label whose heads accept the same
/// words.
#[verifier::opaque]
spec fn cords_respect(fa: &Fa, cords: &Partition, label: Seq<i32>, head: Seq<usize>) -> bool {
    forall|t1: int, t2: int|
        0 <= t1 < label.len() && 0 <= t2 < label.len() && label[t1] == label[t2] && #[trigger] heads_equiv(
            fa,
            head,
            t1,
            t2,
        ) ==> cords.set_of@[t1] == cords.set_of@[t2]
}

/// Of two reached states that accept the same words, when one has a kept transition
/// the other has one with the same label, and the heads accept the same words.
proof fn lemma_equiv_step(
    fa: &Fa,
    b1: &Partition,
    rr: int,
    tail: Seq<usize>,
    label: Seq<i32>,
    head: Seq<usize>,
    x: int,
    y: int,
    t: int,
) -> (t2: int)
    requires
        live_facts(fa, b1, rr, tail, label, head),
        0 <= x < fa.q,
        0 <= y < fa.q,
        equiv_states(fa, x, y),
        0 <= t < tail.len(),
        tail[t] == x,
    ensures
        0 <= t2 < tail.len(),
        tail[t2] == y,
        label[t2] == label[t],
        heads_equiv(fa, head, t, t2),
{
    reveal(live_facts);
    let a = label[t];
    let h = head[t] as int;
    assert(fa.row(x).contains_key(a) && fa.dests(x, a).contains(head[t]));
    assert(fa.dests(x, a).len() <= 1);
    assert(fa.dests(x, a)[0] == head[t]);
    assert(b1.loc@[h] < rr);
    assert(has_word(fa, h));
    let v = choose|v: Seq<i32>| #[trigger] accepts_from(fa, h, v);
    let sa = seq![a];
    assert(sa.drop_last() =~= Seq::<i32>::empty());
    assert(sa.last() == a);
    assert(run_from(fa, x, sa.drop_last()) == Some(x));
    assert(run_from(fa, y, sa.drop_last()) == Some(y));
    assert(run_from(fa, x, sa) == Some(h));
    lemma_run_concat(fa, x, sa, v);
    lemma_run_concat(fa, y, sa, v);
    assert(accepts_from(fa, x, sa + v));
    assert(accepts_from(fa, y, sa + v));
    assert(run_from(fa, y, sa) is Some);
    let h2 = run_from(fa, y, sa)->Some_0;
    assert(fa.row(y).contains_key(a) && fa.dests(y, a).len() > 0);
    assert(h2 == fa.dests(y, a)[0]);
    assert(h2 < fa.q);
    let s = run_from(fa, h2, v)->Some_0;
    lemma_run_in_range(fa, h2, v);
    assert(b1.loc@[s] < rr);
    lemma_run_reached(fa, b1, rr, h2, v);
    let t2 = choose|t2: int|
        #![trigger tail[t2]]
        0 <= t2 < tail.len() && tail[t2] == y && label[t2] == a && head[t2] == fa.dests(y, a)[0];
    assert forall|u: Seq<i32>| #[trigger] accepts_from(fa, h, u) == accepts_from(fa, h2, u) by {
        lemma_run_concat(fa, x, sa, u);
        lemma_run_concat(fa, y, sa, u);
        assert(accepts_from(fa, x, sa + u) == accepts_from(fa, y, sa + u));
    }
    assert(equiv_states(fa, h, h2));
    t2
}

/// Accepting the same words is symmetric.
proof fn lemma_equiv_sym(fa: &Fa, x: int, y: int)
    requires
        equiv_states(fa, x, y),
    ensures
        equiv_states(fa, y, x),
{
    assert forall|w: Seq<i32>| #[trigger] accepts_from(fa, y, w) == accepts_from(fa, x, w) by {
        assert(accepts_from(fa, x, w) == accepts_from(fa, y, w));
    }
}

/// Of two reached states that accept the same words, one is a tail of cord `c` when
/// the other is.
proof fn lemma_cord_tail_equiv(
    fa: &Fa,
    b1: &Partition,
    rr: int,
    tail: Seq<usize>,
    label: Seq<i32>,
    head: Seq<usize>,
    cords: &Partition,
    c: int,
    x: int,
    y: int,
)
    requires
        live_facts(fa, b1, rr, tail, label, head),
        cords_respect(fa, cords, label, head),
        0 <= x < fa.q,
        0 <= y < fa.q,
        equiv_states(fa, x, y),
    ensures
        cord_tail(cords, tail, c, x) == cord_tail(cords, tail, c, y),
{
    reveal(cords_respect);
    reveal(live_facts);
    lemma_equiv_sym(fa, x, y);
    if cord_tail(cords, tail, c, x) {
        let t = choose|t: int| #![trigger tail[t]] 0 <= t < tail.len() && cords.set_of@[t] == c && tail[t] == x;
        let t2 = lemma_equiv_step(fa, b1, rr, tail, label, head, x, y, t);
        assert(heads_equiv(fa, head, t, t2));
        assert(cords.set_of@[t2] == c);
    }
    if cord_tail(cords, tail, c, y) {
        let t = choose|t: int| #![trigger tail[t]] 0 <= t < tail.len() && cords.set_of@[t] == c && tail[t] == y;
        let t2 = lemma_equiv_step(fa, b1, rr, tail, label, head, y, x, t);
        assert(heads_equiv(fa, head, t, t2));
        assert(cords.set_of@[t2] == c);
    }
}

/// Splitting the blocks by a cord keeps together the reached states that accept the
/// same words.
proof fn lemma_blocks_after_cord(
    fa: &Fa,
    b1: &Partition,
    rr: int,
    tail: Seq<usize>,
    label: Seq<i32>,
    head: Seq<usize>,
    bc: &Partition,
    blocks: &Partition,
    cords: &Partition,
    c: int,
)
    requires
        live_facts(fa, b1, rr, tail, label, head),
        blocks_respect(fa, b1, bc, rr),
        cords_respect(fa, cords, label, head),
        bc.perm(),
        bc.n() == fa.q,
        forall|x: int| 0 <= x < fa.q && b1.loc@[x] >= rr ==> #[trigger] bc.loc@[x] == b1.loc@[x],
        forall|x: int, y: int| #[trigger] block_kept(blocks, bc, cords, tail, c, rr, x, y),
    ensures
        blocks_respect(fa, b1, blocks, rr),
{
    reveal(blocks_respect);
    reveal(live_facts);
    lemma_prefix_same(b1, bc, rr);
    assert forall|x: int, y: int|
        0 <= x < fa.q && 0 <= y < fa.q && b1.loc@[x] < rr && b1.loc@[y] < rr && #[trigger] equiv_states(fa, x, y)
        implies blocks.set_of@[x] == blocks.set_of@[y] by {
        assert(bc.set_of@[x] == bc.set_of@[y]);
        assert(bc.loc@[x] < rr);
        assert(bc.loc@[y] < rr);
        lemma_cord_tail_equiv(fa, b1, rr, tail, label, head, cords, c, x, y);
        assert(block_kept(blocks, bc, cords, tail, c, rr, x, y));
    }
}

/// Splitting the cords by a block keeps together the transitions with the same label
/// whose heads accept the same words.
proof fn lemma_cords_after_block(
    fa: &Fa,
    b1: &Partition,
    rr: int,
    tail: Seq<usize>,
    label: Seq<i32>,
    head: Seq<usize>,
    blocks: &Partition,
    cb: &Partition,
    cords: &Partition,
    b: int,
)
    requires
        live_facts(fa, b1, rr, tail, label, head),
        blocks_respect(fa, b1, blocks, rr),
        cords_respect(fa, cb, label, head),
        forall|t1: int, t2: int| #[trigger] cord_kept(cords, cb, blocks, head, b, t1, t2),
    ensures
        cords_respect(fa, cords, label, head),
{
    reveal(live_facts);
    reveal(blocks_respect);
    reveal(cords_respect);
    assert forall|t1: int, t2: int|
        0 <= t1 < label.len() && 0 <= t2 < label.len() && label[t1] == label[t2] && #[trigger] heads_equiv(
            fa,
            head,
            t1,
            t2,
        ) implies cords.set_of@[t1] == cords.set_of@[t2] by {
        assert(cb.set_of@[t1] == cb.set_of@[t2]);
        assert(b1.loc@[tail[t1] as int] < rr);
        assert(b1.loc@[tail[t2] as int] < rr);
        assert(head[t1] < fa.q);
        assert(head[t2] < fa.q);
        assert(equiv_states(fa, head[t1] as int, head[t2] as int));
        assert(blocks.set_of@[head[t1] as int] == blocks.set_of@[head[t2] as int]);
        assert(cord_kept(cords, cb, blocks, head, b, t1, t2));
    }
}

/// The facts the refinement relies on, from what the backward pass and the pruning of
/// the transitions establish.
proof fn lemma_live_facts(
    fa: &Fa,
    b1: &Partition,
    rr: int,
    nf: int,
    tail0: Seq<usize>,
    label0: Seq<i32>,
    head0: Seq<usize>,
    tail: Seq<usize>,
    label: Seq<i32>,
    head: Seq<usize>,
)
    requires
        fa.wf(),
        fa.spec_deterministic(),
        b1.perm(),
        b1.n() == fa.q,
        nf <= rr <= fa.q,
        forall|pos: int| 0 <= pos < rr ==> #[trigger] has_word(fa, b1.elems@[pos] as int),
        forall|x: int| 0 <= x < fa.q ==> (fa.accepting(x) <==> #[trigger] b1.loc@[x] < nf),
        trans_ok(fa, tail0, label0, head0),
        trans_complete(fa, tail0, label0, head0, fa.q as int),
        forall|t: int| 0 <= t < tail0.len() && b1.loc@[head0[t] as int] < rr ==> #[trigger] b1.loc@[tail0[t] as int] < rr,
        trans_ok(fa, tail, label, head),
        forall|t: int| 0 <= t < tail.len() ==> #[trigger] b1.loc@[tail[t] as int] < rr && b1.loc@[head[t] as int] < rr,
        forall|t: int|
            0 <= t < tail0.len() && b1.loc@[#[trigger] head0[t] as int] < rr ==> exists|k: int|
                #![trigger tail[k]]
                0 <= k < tail.len() && tail[k] == tail0[t] && label[k] == label0[t] && head[k] == head0[t],
    ensures
        live_facts(fa, b1, rr, tail, label, head),
{
    reveal(live_facts);
    assert forall|x: int| 0 <= x < fa.q && b1.loc@[x] < rr implies #[trigger] has_word(fa, x) by {
        assert(b1.elems@[b1.loc@[x] as int] == x);
    }
    assert forall|p: int, sym: i32|
        0 <= p < fa.q && #[trigger] fa.row(p).contains_key(sym) && fa.dests(p, sym).len() > 0 && b1.loc@[fa.dests(
            p,
            sym,
        )[0] as int] < rr implies b1.loc@[p] < rr && exists|t: int|
        #![trigger tail[t]]
        0 <= t < tail.len() && tail[t] == p && label[t] == sym && head[t] == fa.dests(p, sym)[0] by {
        let t0 = choose|t0: int|
            #![trigger tail0[t0]]
            0 <= t0 < tail0.len() && tail0[t0] == p && label0[t0] == sym && head0[t0] == fa.dests(p, sym)[0];
        assert(b1.loc@[head0[t0] as int] < rr);
        assert(b1.loc@[tail0[t0] as int] < rr);
    }
    assert forall|x: int| 0 <= x < fa.q && #[trigger] fa.accepting(x) implies b1.loc@[x] < rr by {
        assert(b1.loc@[x] < nf);
    }
}

/// Read from the block of a reached state `p`, the quotient accepts exactly the words
/// that `fa` accepts from `p`.
proof fn lemma_quotient_accepts_from(
    fa: &Fa,
    m: &Fa,
    blocks: &Partition,
    cords: &Partition,
    tail: Seq<usize>,
    label: Seq<i32>,
    head: Seq<usize>,
    rr: int,
    nf: int,
    p: int,
    w: Seq<i32>,
)
    requires
        quotient_facts(fa, m, blocks, cords, tail, label, head, rr, nf),
        m.o@.len() == m.q,
        0 <= p < fa.q,
        blocks.loc@[p] < rr,
    ensures
        accepts_from(m, blocks.set_of@[p] as int, w) == accepts_from(fa, p, w),
{
    if accepts_from(fa, p, w) {
        let s = run_from(fa, p, w)->Some_0;
        lemma_run_in_range(fa, p, w);
        assert(blocks.loc@[s] < rr);
        lemma_quotient_run_forward(fa, m, blocks, cords, tail, label, head, rr, nf, p, w);
        lemma_first_of_block(blocks, rr, s);
        let bs = blocks.set_of@[s] as int;
        assert(row_of(m.d@[bs]@, blocks.elems@[blocks.first@[bs] as int] as int, blocks, tail, label, head));
        assert(m.o@[bs] == (if blocks.first@[bs] < nf { 1i32 } else { 0i32 }));
    }
    if accepts_from(m, blocks.set_of@[p] as int, w) {
        lemma_quotient_run_back(fa, m, blocks, cords, tail, label, head, rr, nf, p, w);
        let s = run_from(fa, p, w)->Some_0;
        let bs = blocks.set_of@[s] as int;
        lemma_first_of_block(blocks, rr, s);
        assert(row_of(m.d@[bs]@, blocks.elems@[blocks.first@[bs] as int] as int, blocks, tail, label, head));
        assert(m.o@[bs] == (if blocks.first@[bs] < nf { 1i32 } else { 0i32 }));
    }
}

/// A reached member of block `i`.
proof fn lemma_block_member(blocks: &Partition, rr: int, i: int, q0: int) -> (x: int)
    requires
        blocks.perm(),
        blocks.sets(rr),
        0 <= i < blocks.z,
        0 <= q0 < blocks.n(),
        blocks.loc@[q0] < rr,
    ensures
        0 <= x < blocks.n(),
        blocks.loc@[x] < rr,
        blocks.set_of@[x] == i,
{
    lemma_first_of_block(blocks, rr, q0);
    if blocks.z > 1 {
        assert(blocks.first@[i] < blocks.past@[i]);
        let pos = blocks.first@[i] as int;
        assert(blocks.owner(pos) == i);
        let x = blocks.elems@[pos] as int;
        assert(blocks.loc@[x] == pos);
        x
    } else {
        q0
    }
}

/// The quotient by blocks that never separate two states accepting the same words has
/// no two states accepting the same words, and each of its states accepts some word.
proof fn lemma_quotient_minimal(
    fa: &Fa,
    m: &Fa,
    b1: &Partition,
    blocks: &Partition,
    cords: &Partition,
    tail: Seq<usize>,
    label: Seq<i32>,
    head: Seq<usize>,
    rr: int,
    nf: int,
)
    requires
        quotient_facts(fa, m, blocks, cords, tail, label, head, rr, nf),
        m.o@.len() == m.q,
        live_facts(fa, b1, rr, tail, label, head),
        blocks_respect(fa, b1, blocks, rr),
        forall|x: int| 0 <= x < fa.q && b1.loc@[x] >= rr ==> #[trigger] blocks.loc@[x] == b1.loc@[x],
        fa.q0 < fa.q,
        blocks.loc@[fa.q0 as int] < rr,
    ensures
        states_distinguished(m),
        states_live(m),
{
    lemma_live_basic(fa, b1, rr, tail, label, head);
    lemma_prefix_same(b1, blocks, rr);
    let q0 = fa.q0 as int;
    assert forall|i: int| 0 <= i < m.q implies #[trigger] has_word(m, i) by {
        let x = lemma_block_member(blocks, rr, i, q0);
        assert(b1.loc@[x] < rr);
        lemma_live_word(fa, b1, rr, tail, label, head, x);
        let w = choose|w: Seq<i32>| #[trigger] accepts_from(fa, x, w);
        lemma_quotient_accepts_from(fa, m, blocks, cords, tail, label, head, rr, nf, x, w);
        assert(accepts_from(m, i, w));
    }
    assert forall|i: int, j: int| 0 <= i < m.q && 0 <= j < m.q && i != j implies !#[trigger] equiv_states(m, i, j) by {
        if equiv_states(m, i, j) {
            let x = lemma_block_member(blocks, rr, i, q0);
            let y = lemma_block_member(blocks, rr, j, q0);
            assert forall|w: Seq<i32>| #[trigger] accepts_from(fa, x, w) == accepts_from(fa, y, w) by {
                lemma_quotient_accepts_from(fa, m, blocks, cords, tail, label, head, rr, nf, x, w);
                lemma_quotient_accepts_from(fa, m, blocks, cords, tail, label, head, rr, nf, y, w);
                assert(accepts_from(m, i, w) == accepts_from(m, j, w));
            }
            assert(equiv_states(fa, x, y));
            assert(b1.loc@[x] < rr);
            assert(b1.loc@[y] < rr);
            lemma_respect_use(fa, b1, blocks, rr, x, y);
        }
    }
}

proof fn lemma_live_basic(fa: &Fa, b1: &Partition, rr: int, tail: Seq<usize>, label: Seq<i32>, head: Seq<usize>)
    requires
        live_facts(fa, b1, rr, tail, label, head),
    ensures
        b1.perm(),
        b1.n() == fa.q,
{
    reveal(live_facts);
}

proof fn lemma_live_word(fa: &Fa, b1: &Partition, rr: int, tail: Seq<usize>, label: Seq<i32>, head: Seq<usize>, x: int)
    requires
        live_facts(fa, b1, rr, tail, label, head),
        0 <= x < fa.q,
        b1.loc@[x] < rr,
    ensures
        has_word(fa, x),
{
    reveal(live_facts);
}

proof fn lemma_respect_use(fa: &Fa, b1: &Partition, blocks: &Partition, rr: int, x: int, y: int)
    requires
        blocks_respect(fa, b1, blocks, rr),
        0 <= x < fa.q,
        0 <= y < fa.q,
        b1.loc@[x] < rr,
        b1.loc@[y] < rr,
        equiv_states(fa, x, y),
    ensures
        blocks.set_of@[x] == blocks.set_of@[y],
{
    reveal(blocks_respect);
}

/// When the start state is reached backwards from the accepting states, some word is
/// accepted.
proof fn lemma_start_accepts_some_word(
    fa: &Fa,
    b1: &Partition,
    blocks: &Partition,
    rr: int,
    tail: Seq<usize>,
    label: Seq<i32>,
    head: Seq<usize>,
)
    requires
        live_facts(fa, b1, rr, tail, label, head),
        blocks.perm(),
        blocks.n() == fa.q,
        forall|x: int| 0 <= x < fa.q && b1.loc@[x] >= rr ==> #[trigger] blocks.loc@[x] == b1.loc@[x],
        fa.q0 < fa.q,
        blocks.loc@[fa.q0 as int] < rr,
    ensures
        exists|w: Seq<i32>| accepts(fa, w),
{
    lemma_live_basic(fa, b1, rr, tail, label, head);
    lemma_prefix_same(b1, blocks, rr);
    lemma_live_word(fa, b1, rr, tail, label, head, fa.q0 as int);
    let w0 = choose|w: Seq<i32>| #[trigger] accepts_from(fa, fa.q0 as int, w);
    assert(accepts(fa, w0));
}

/// When every state of `fa` is reached from its start state, so is every block of the
/// quotient.
proof fn lemma_quotient_reachable(
    fa: &Fa,
    m: &Fa,
    blocks: &Partition,
    cords: &Partition,
    tail: Seq<usize>,
    label: Seq<i32>,
    head: Seq<usize>,
    rr: int,
    nf: int,
)
    requires
        quotient_facts(fa, m, blocks, cords, tail, label, head, rr, nf),
        fa.q0 < fa.q,
        blocks.loc@[fa.q0 as int] < rr,
        m.q0 == blocks.set_of@[fa.q0 as int],
        forall|x: int| 0 <= x < fa.q ==> #[trigger] reachable(fa, x),
    ensures
        forall|j: int| 0 <= j < m.q ==> #[trigger] reachable(m, j),
{
    assert forall|j: int| 0 <= j < m.q implies #[trigger] reachable(m, j) by {
        let x = lemma_block_member(blocks, rr, j, fa.q0 as int);
        assert(reachable(fa, x));
        let w = choose|w: Seq<i32>| #[trigger] run_from(fa, fa.q0 as int, w) == Some(x);
        lemma_quotient_run_forward(fa, m, blocks, cords, tail, label, head, rr, nf, fa.q0 as int, w);
        assert(run_from(m, m.q0 as int, w) == Some(j));
    }
}

} // verus!
