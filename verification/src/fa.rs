//! The finite automaton value that every construction in this crate reads and
//! builds: `q` states numbered `0..q`, a start state `q0`, one integer output per
//! state (`0` rejects, anything else accepts) and, per state, a map from input
//! symbol to the list of destination states.

use std::collections::BTreeMap;
use vstd::prelude::*;
use vstd::std_specs::iter::IteratorSpec;

verus! {

broadcast use vstd::std_specs::btree::group_btree_axioms;

/// The state reached from `p` on `word`, following the first destination of each
/// transition, or `None` when some transition is missing.
pub open spec fn run_from(fa: &Fa, p: int, word: Seq<i32>) -> Option<int>
    decreases word.len(),
{
    if word.len() == 0 {
        Some(p)
    } else {
        match run_from(fa, p, word.drop_last()) {
            Some(r) => if fa.row(r).contains_key(word.last()) && fa.dests(r, word.last()).len() > 0 {
                Some(fa.dests(r, word.last())[0] as int)
            } else {
                None
            },
            None => None,
        }
    }
}

/// A run from `p` that exists stays among the states.
pub proof fn lemma_run_in_range(fa: &Fa, p: int, w: Seq<i32>)
    requires
        fa.wf(),
        0 <= p < fa.q,
        run_from(fa, p, w) is Some,
    ensures
        0 <= run_from(fa, p, w)->Some_0 < fa.q,
    decreases w.len(),
{
    if w.len() > 0 {
        lemma_run_in_range(fa, p, w.drop_last());
        let r = run_from(fa, p, w.drop_last())->Some_0;
        assert(fa.dests(r, w.last())[0] < fa.q);
    }
}

/// Two automata with the same transitions read the same.
pub proof fn lemma_run_same(a: &Fa, b: &Fa, p: int, w: Seq<i32>)
    requires
        a.d@ == b.d@,
    ensures
        run_from(a, p, w) == run_from(b, p, w),
    decreases w.len(),
{
    if w.len() > 0 {
        lemma_run_same(a, b, p, w.drop_last());
    }
}

/// Reading `u` and then `v` is reading `u + v`.
pub proof fn lemma_run_concat(fa: &Fa, p: int, u: Seq<i32>, v: Seq<i32>)
    ensures
        run_from(fa, p, u + v) == match run_from(fa, p, u) {
            Some(r) => run_from(fa, r, v),
            None => None,
        },
    decreases v.len(),
{
    if v.len() == 0 {
        assert(u + v =~= u);
    } else {
        lemma_run_concat(fa, p, u, v.drop_last());
        assert((u + v).drop_last() =~= u + v.drop_last());
        assert((u + v).last() == v.last());
    }
}

/// `fa` accepts `word` read from state `p`.
pub open spec fn accepts_from(fa: &Fa, p: int, word: Seq<i32>) -> bool {
    run_from(fa, p, word) matches Some(s) && fa.accepting(s)
}

/// No word tells the states `x` and `y` apart: they accept the same words.
pub open spec fn equiv_states(fa: &Fa, x: int, y: int) -> bool {
    forall|w: Seq<i32>|
        #![trigger accepts_from(fa, x, w)]
        #![trigger accepts_from(fa, y, w)]
        accepts_from(fa, x, w) == accepts_from(fa, y, w)
}

/// Some word leads from the start state of `fa` to `x`.
pub open spec fn reachable(fa: &Fa, x: int) -> bool {
    exists|w: Seq<i32>| #[trigger] run_from(fa, fa.q0 as int, w) == Some(x)
}

/// Some word is accepted from state `p`.
pub open spec fn has_word(fa: &Fa, p: int) -> bool {
    exists|w: Seq<i32>| #[trigger] accepts_from(fa, p, w)
}

/// An accepting state accepts the empty word.
pub proof fn lemma_accepting_word(fa: &Fa, p: int)
    requires
        fa.accepting(p),
    ensures
        has_word(fa, p),
{
    assert(accepts_from(fa, p, Seq::<i32>::empty()));
}

/// In a deterministic automaton, a state with a transition into a state that accepts
/// some word accepts some word too.
pub proof fn lemma_word_step(fa: &Fa, p: int, sym: i32, r: int)
    requires
        fa.spec_deterministic(),
        0 <= p < fa.d@.len(),
        fa.row(p).contains_key(sym),
        fa.dests(p, sym).contains(r as usize),
        0 <= r <= usize::MAX,
        has_word(fa, r),
    ensures
        has_word(fa, p),
{
    let w = choose|w: Seq<i32>| #[trigger] accepts_from(fa, r, w);
    let k = choose|k: int| 0 <= k < fa.dests(p, sym).len() && fa.dests(p, sym)[k] == r as usize;
    assert(fa.dests(p, sym).len() <= 1);
    let a = seq![sym];
    assert(a.drop_last() =~= Seq::<i32>::empty());
    assert(run_from(fa, p, a.drop_last()) == Some(p));
    assert(a.last() == sym);
    assert(fa.dests(p, sym)[0] == r as usize);
    assert(run_from(fa, p, a) == Some(r));
    lemma_run_concat(fa, p, a, w);
    assert(accepts_from(fa, p, a + w));
}

/// A state that accepts some word reaches an accepting state.
pub proof fn lemma_word_coreachable(fa: &Fa, p: int)
    requires
        has_word(fa, p),
    ensures
        fa.coreachable(p),
{
    let w = choose|w: Seq<i32>| #[trigger] accepts_from(fa, p, w);
    let s = run_from(fa, p, w)->Some_0;
    fa.lemma_accepting_coreachable(s);
    fa.lemma_run_coreachable(p, w);
}

/// Two automata whose rows agree on the states read the same from a state.
pub proof fn lemma_run_rows_same(a: &Fa, b: &Fa, p: int, w: Seq<i32>)
    requires
        a.wf(),
        0 <= p < a.q,
        b.d@.len() == a.d@.len(),
        forall|x: int| 0 <= x < a.d@.len() ==> #[trigger] b.d@[x]@ == a.d@[x]@,
    ensures
        run_from(b, p, w) == run_from(a, p, w),
    decreases w.len(),
{
    if w.len() > 0 {
        lemma_run_rows_same(a, b, p, w.drop_last());
        if run_from(a, p, w.drop_last()) is Some {
            lemma_run_in_range(a, p, w.drop_last());
            let r = run_from(a, p, w.drop_last())->Some_0;
            assert(b.d@[r]@ == a.d@[r]@);
        }
    }
}

/// `fa` accepts `word`: the run from the start state ends in an accepting state.
pub open spec fn accepts(fa: &Fa, word: Seq<i32>) -> bool {
    run_from(fa, fa.q0 as int, word) matches Some(s) && fa.accepting(s)
}

/// A (possibly nondeterministic, possibly partial) finite automaton with outputs.
#[derive(Debug, Clone)]
pub struct Fa {
    /// `Some(b)` marks the trivial automaton whose language is everything (`true`)
    /// or nothing (`false`); `None` for an ordinary automaton.
    pub true_false: Option<bool>,
    /// The start state.
    pub q0: usize,
    /// The number of states.
    pub q: usize,
    /// Input symbols are `0..alphabet_size`.
    pub alphabet_size: usize,
    /// One output per state; a state accepts when its output is nonzero.
    pub o: Vec<i32>,
    /// One transition map per state: symbol -> destination states.
    pub d: Vec<BTreeMap<i32, Vec<usize>>>,
}

impl Fa {
    /// The transition map of state `p`.
    pub open spec fn row(&self, p: int) -> Map<i32, Vec<usize>> {
        self.d@[p]@
    }

    /// The destinations of state `p` on symbol `sym`.
    pub open spec fn dests(&self, p: int, sym: i32) -> Seq<usize> {
        self.d@[p]@[sym]@
    }

    /// The vectors agree with the state count and every destination is a state.
    pub open spec fn wf(&self) -> bool {
        &&& self.o@.len() == self.q
        &&& self.d@.len() == self.q
        &&& forall|p: int, sym: i32, k: int|
            #![trigger self.dests(p, sym)[k]]
            0 <= p < self.q && self.row(p).contains_key(sym) && 0 <= k < self.dests(p, sym).len()
                ==> self.dests(p, sym)[k] < self.q
    }

    /// Every (state, symbol) pair has at most one destination.
    pub open spec fn spec_deterministic(&self) -> bool {
        forall|p: int, sym: i32|
            0 <= p < self.d@.len() && #[trigger] self.row(p).contains_key(sym) ==> self.dests(p, sym).len()
                <= 1
    }

    /// State `p` accepts.
    pub open spec fn accepting(&self, p: int) -> bool {
        0 <= p < self.o@.len() && self.o@[p] != 0
    }

    /// Some transition leads from `p` to `r`.
    pub open spec fn edge(&self, p: int, r: int) -> bool {
        exists|sym: i32| #[trigger]
            self.row(p).contains_key(sym) && self.dests(p, sym).contains(r as usize)
    }

    /// `path` is a nonempty walk along transitions.
    pub open spec fn is_path(&self, path: Seq<int>) -> bool {
        &&& path.len() >= 1
        &&& forall|i: int| 0 <= i < path.len() - 1 ==> #[trigger] self.edge(path[i], path[i + 1])
    }

    /// Some accepting state can be reached from `p`.
    pub open spec fn coreachable(&self, p: int) -> bool {
        exists|path: Seq<int>| #[trigger]
            self.is_path(path) && path[0] == p && self.accepting(path.last())
    }

    /// No accepting state is reachable from the start state, i.e. the automaton
    /// accepts no word at all.
    pub open spec fn accepts_nothing(&self) -> bool {
        !self.coreachable(self.q0 as int)
    }

    /// A state from which an accepting state is reachable, one step back along an edge,
    /// is itself such a state.
    pub proof fn lemma_coreachable_step(&self, p: int, r: int)
        requires
            self.edge(p, r),
            self.coreachable(r),
        ensures
            self.coreachable(p),
    {
        let path = choose|path: Seq<int>|
            #[trigger] self.is_path(path) && path[0] == r && self.accepting(path.last());
        let np = seq![p] + path;
        assert forall|i: int| 0 <= i < np.len() - 1 implies #[trigger] self.edge(np[i], np[i + 1]) by {
            if i > 0 {
                assert(np[i] == path[i - 1]);
                assert(np[i + 1] == path[i]);
                assert(self.edge(path[i - 1], path[(i - 1) + 1]));
            }
        }
        assert(np.last() == path.last());
        assert(self.is_path(np));
    }

    /// An accepting state reaches itself.
    pub proof fn lemma_accepting_coreachable(&self, p: int)
        requires
            self.accepting(p),
        ensures
            self.coreachable(p),
    {
        let path = seq![p];
        assert(self.is_path(path));
    }

    /// A state from which some word leads to an accepting state reaches acceptance.
    pub proof fn lemma_run_coreachable(&self, p: int, word: Seq<i32>)
        requires
            run_from(self, p, word) matches Some(s) && self.coreachable(s),
        ensures
            self.coreachable(p),
        decreases word.len(),
    {
        if word.len() > 0 {
            let r = run_from(self, p, word.drop_last()).unwrap();
            let s = run_from(self, p, word).unwrap();
            assert(self.dests(r, word.last()).contains(s as usize)) by {
                assert(self.dests(r, word.last())[0] == s as usize);
            }
            assert(self.edge(r, s));
            self.lemma_coreachable_step(r, s);
            self.lemma_run_coreachable(p, word.drop_last());
        }
    }

    /// Builds an automaton from its parts; the result is an ordinary (not trivial) one.
    pub fn with_states(q0: usize, q: usize, alphabet_size: usize, o: Vec<i32>, d: Vec<
        BTreeMap<i32, Vec<usize>>,
    >) -> (r: Fa)
        ensures
            r.true_false is None,
            r.q0 == q0,
            r.q == q,
            r.alphabet_size == alphabet_size,
            r.o == o,
            r.d == d,
    {
        Fa { true_false: None, q0, q, alphabet_size, o, d }
    }

    /// Replaces the state count, the outputs and the transitions; the start state and
    /// the alphabet are left as they are.
    pub fn set_fields(&mut self, q: usize, o: Vec<i32>, d: Vec<BTreeMap<i32, Vec<usize>>>)
        ensures
            final(self).q == q,
            final(self).o == o,
            final(self).d == d,
            final(self).q0 == old(self).q0,
            final(self).alphabet_size == old(self).alphabet_size,
            final(self).true_false == old(self).true_false,
    {
        self.q = q;
        self.o = o;
        self.d = d;
    }

    /// Whether state `p` accepts.
    pub fn is_accepting(&self, p: usize) -> (r: bool)
        requires
            p < self.o@.len(),
        ensures
            r == (self.o@[p as int] != 0),
    {
        self.o[p] != 0
    }

    /// The trivial automaton flag is set.
    pub fn is_true_false_automaton(&self) -> (r: bool)
        ensures
            r == (self.true_false is Some),
    {
        self.true_false.is_some()
    }

    /// Every (state, symbol) pair has at most one destination.
    pub fn is_deterministic(&self) -> (r: bool)
        ensures
            r == self.spec_deterministic(),
    {
        let n = self.d.len();
        for p in 0..n
            invariant
                n == self.d@.len(),
                forall|x: int, sym: i32|
                    0 <= x < p && #[trigger] self.row(x).contains_key(sym) ==> self.dests(x, sym).len()
                        <= 1,
        {
            let row = &self.d[p];
            let ghost rem = vstd::std_specs::btree::spec_btree_map_iter(row).remaining();
            for e in it: row.iter()
                invariant
                    n == self.d@.len(),
                    0 <= p < n,
                    *row == self.d@[p as int],
                    it.seq() == rem,
                    rem == vstd::std_specs::btree::spec_btree_map_iter(row).remaining(),
                    forall|i: int| 0 <= i < it.index() ==> (#[trigger] it.seq()[i]).1@.len() <= 1,
            {
                if e.1.len() > 1 {
                    assert(row@.contains_key(*rem[it.index()].0));
                    assert(row@[*rem[it.index()].0] == *rem[it.index()].1);
                    assert(self.row(p as int).contains_key(*e.0));
                    assert(self.dests(p as int, *e.0).len() > 1);
                    return false;
                }
            }
            assert forall|sym: i32| #[trigger] self.row(p as int).contains_key(sym) implies self.dests(
                p as int,
                sym,
            ).len() <= 1 by {
                assert(rem.contains((&sym, &self.row(p as int)[sym])));
            }
        }
        true
    }
}

} // verus!
