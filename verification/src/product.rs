//! The boolean connectives on automata over the same tracks, by the product
//! construction: a state of the product is a pair of states, one of each operand, and
//! its output is the connective applied to the two outputs.

use crate::automaton::Automaton;
use crate::fa::{accepts, lemma_run_in_range, lemma_run_same, reachable, run_from, Fa};
use crate::logicalops::{
    has_destinations, is_total, just_minimize, lemma_run_symbols, lemma_total_run, lemma_totalized_run, not, over_alphabet, totalize,
    totalized_from,
};
use crate::minimize::{is_minimal, is_partial_dfa};
use crate::trim::trim_unreachable;
use std::collections::BTreeMap;
use vstd::prelude::*;

verus! {

broadcast use vstd::std_specs::btree::group_btree_axioms;

/// A binary connective.
#[derive(Debug, Clone, Copy, PartialEq, Eq)]
pub enum BooleanOp {
    And,
    Or,
    Xor,
    Imply,
    Iff,
}

/// The truth table of each connective.
pub open spec fn op_value(op: BooleanOp, x: bool, y: bool) -> bool {
    match op {
        BooleanOp::And => x && y,
        BooleanOp::Or => x || y,
        BooleanOp::Xor => x != y,
        BooleanOp::Imply => !x || y,
        BooleanOp::Iff => x == y,
    }
}

impl BooleanOp {
    /// Applies the connective to two truth values.
    pub fn combine(&self, x: bool, y: bool) -> (r: bool)
        ensures
            r == op_value(*self, x, y),
    {
        match self {
            BooleanOp::And => x && y,
            BooleanOp::Or => x || y,
            BooleanOp::Xor => x != y,
            BooleanOp::Imply => !x || y,
            BooleanOp::Iff => x == y,
        }
    }
}

/// Every word `m` accepts is over the alphabet `0..k`.
pub open spec fn words_over(m: &Fa, k: int) -> bool {
    forall|w: Seq<i32>| #[trigger] accepts(m, w) ==> over_alphabet(w, k)
}

/// Every state of `m` is reached from its start state by some word.
pub open spec fn all_reachable(m: &Fa) -> bool {
    forall|j: int| 0 <= j < m.q ==> #[trigger] reachable(m, j)
}

/// State `p` has a transition on `s` with a destination.
pub open spec fn steps(fa: &Fa, p: int, s: i32) -> bool {
    fa.row(p).contains_key(s) && fa.dests(p, s).len() > 0
}

/// The number of the pair `(p, q)` among `nb` states of the second operand.
pub open spec fn pair_state(p: int, q: int, nb: int) -> int {
    p * nb + q
}

/// How a pair's output comes from the outputs of its two states: by a connective on
/// acceptance (`1` or `0`), or, for building an automaton with outputs, the value `c`
/// where the second state outputs `1` and the first state's output elsewhere.
#[derive(Debug, Clone, Copy, PartialEq, Eq)]
pub enum ProductRule {
    Connective(BooleanOp),
    Override(i32),
}

/// The output of a pair whose states output `x` and `y`.
pub open spec fn rule_output(rule: ProductRule, x: i32, y: i32) -> i32 {
    match rule {
        ProductRule::Connective(op) => if op_value(op, x != 0, y != 0) {
            1i32
        } else {
            0i32
        },
        ProductRule::Override(c) => if y == 1 {
            c
        } else {
            x
        },
    }
}

impl ProductRule {
    /// The output of a pair whose states output `x` and `y`.
    pub fn output(&self, x: i32, y: i32) -> (r: i32)
        ensures
            r == rule_output(*self, x, y),
    {
        match self {
            ProductRule::Connective(op) => if op.combine(x != 0, y != 0) {
                1
            } else {
                0
            },
            ProductRule::Override(c) => if y == 1 {
                *c
            } else {
                x
            },
        }
    }
}

/// The row and the output of the pair `(p, q)` in the product `r` of `a` and `b`.
pub open spec fn pair_ok(r: &Fa, a: &Fa, b: &Fa, rule: ProductRule, p: int, q: int) -> bool {
    let x = pair_state(p, q, b.q as int);
    &&& forall|s: i32| #[trigger]
        r.row(x).contains_key(s) == (0 <= s < a.alphabet_size && steps(a, p, s) && steps(b, q, s))
    &&& forall|s: i32| #[trigger]
        r.row(x).contains_key(s) ==> r.dests(x, s) == seq![
            pair_state(a.dests(p, s)[0] as int, b.dests(q, s)[0] as int, b.q as int) as usize,
        ]
    &&& r.o@[x] == rule_output(rule, a.o@[p], b.o@[q])
}

/// `r` is the product of `a` and `b` under `rule`.
pub open spec fn is_product(r: &Fa, a: &Fa, b: &Fa, rule: ProductRule) -> bool {
    &&& r.wf()
    &&& r.true_false is None
    &&& r.q == a.q * b.q
    &&& r.q0 == pair_state(a.q0 as int, b.q0 as int, b.q as int)
    &&& r.alphabet_size == a.alphabet_size
    &&& forall|p: int, q: int| 0 <= p < a.q && 0 <= q < b.q ==> #[trigger] pair_ok(r, a, b, rule, p, q)
}

proof fn lemma_pair_bound(p: int, q: int, na: int, nb: int)
    requires
        0 <= p < na,
        0 <= q < nb,
    ensures
        0 <= pair_state(p, q, nb) < na * nb,
        pair_state(p, q, nb) + 1 <= na * nb,
{
    assert(0 <= p * nb + q < na * nb) by (nonlinear_arith)
        requires
            0 <= p < na,
            0 <= q < nb,
    ;
}

/// Whether a pair is built right depends only on its own row and output.
proof fn lemma_pair_ok_same(f0: &Fa, f1: &Fa, a: &Fa, b: &Fa, rule: ProductRule, x: int, y: int)
    requires
        pair_ok(f0, a, b, rule, x, y),
        f1.d@[pair_state(x, y, b.q as int)] == f0.d@[pair_state(x, y, b.q as int)],
        f1.o@[pair_state(x, y, b.q as int)] == f0.o@[pair_state(x, y, b.q as int)],
    ensures
        pair_ok(f1, a, b, rule, x, y),
{
    let z = pair_state(x, y, b.q as int);
    assert(f1.row(z) == f0.row(z));
    assert forall|s: i32| #[trigger] f1.row(z).contains_key(s) == (0 <= s < a.alphabet_size && steps(a, x, s) && steps(b, y, s)) by {
        assert(f0.row(z).contains_key(s) == (0 <= s < a.alphabet_size && steps(a, x, s) && steps(b, y, s)));
    }
    assert forall|s: i32| #[trigger] f1.row(z).contains_key(s) implies f1.dests(z, s) == seq![
        pair_state(a.dests(x, s)[0] as int, b.dests(y, s)[0] as int, b.q as int) as usize,
    ] by {
        assert(f0.row(z).contains_key(s));
    }
}

/// The product runs both operands side by side.
proof fn lemma_product_run(r: &Fa, a: &Fa, b: &Fa, rule: ProductRule, p: int, q: int, w: Seq<i32>)
    requires
        a.wf(),
        b.wf(),
        is_product(r, a, b, rule),
        0 <= p < a.q,
        0 <= q < b.q,
        over_alphabet(w, a.alphabet_size as int),
    ensures
        run_from(r, pair_state(p, q, b.q as int), w) == if run_from(a, p, w) is Some && run_from(b, q, w) is Some {
            Some(pair_state(run_from(a, p, w)->Some_0, run_from(b, q, w)->Some_0, b.q as int))
        } else {
            None::<int>
        },
    decreases w.len(),
{
    if w.len() > 0 {
        let u = w.drop_last();
        assert(over_alphabet(u, a.alphabet_size as int)) by {
            assert forall|i: int| 0 <= i < u.len() implies 0 <= #[trigger] u[i] < a.alphabet_size by {
                assert(u[i] == w[i]);
            }
        }
        lemma_product_run(r, a, b, rule, p, q, u);
        let s = w.last();
        assert(0 <= w[w.len() - 1] < a.alphabet_size);
        if run_from(a, p, u) is Some && run_from(b, q, u) is Some {
            lemma_run_in_range(a, p, u);
            lemma_run_in_range(b, q, u);
            let x = run_from(a, p, u)->Some_0;
            let y = run_from(b, q, u)->Some_0;
            assert(pair_ok(r, a, b, rule, x, y));
            let z = pair_state(x, y, b.q as int);
            if steps(a, x, s) && steps(b, y, s) {
                assert(r.row(z).contains_key(s));
                assert(r.dests(z, s)[0] == pair_state(a.dests(x, s)[0] as int, b.dests(y, s)[0] as int, b.q as int) as usize);
                lemma_pair_bound(a.dests(x, s)[0] as int, b.dests(y, s)[0] as int, a.q as int, b.q as int);
                assert(run_from(r, pair_state(p, q, b.q as int), w) == Some(pair_state(a.dests(x, s)[0] as int, b.dests(y, s)[0] as int, b.q as int)));
            } else {
                assert(!r.row(z).contains_key(s));
            }
        }
    }
}

/// The product accepts a word over the alphabet when both runs exist and the
/// connective holds of the two outputs.
proof fn lemma_product_accepts(r: &Fa, a: &Fa, b: &Fa, op: BooleanOp, w: Seq<i32>)
    requires
        a.wf(),
        b.wf(),
        a.q0 < a.q,
        b.q0 < b.q,
        is_product(r, a, b, ProductRule::Connective(op)),
        over_alphabet(w, a.alphabet_size as int),
    ensures
        accepts(r, w) == (run_from(a, a.q0 as int, w) is Some && run_from(b, b.q0 as int, w) is Some && op_value(
            op,
            accepts(a, w),
            accepts(b, w),
        )),
{
    lemma_product_run(r, a, b, ProductRule::Connective(op), a.q0 as int, b.q0 as int, w);
    if run_from(a, a.q0 as int, w) is Some && run_from(b, b.q0 as int, w) is Some {
        lemma_run_in_range(a, a.q0 as int, w);
        lemma_run_in_range(b, b.q0 as int, w);
        let x = run_from(a, a.q0 as int, w)->Some_0;
        let y = run_from(b, b.q0 as int, w)->Some_0;
        assert(pair_ok(r, a, b, ProductRule::Connective(op), x, y));
        lemma_pair_bound(x, y, a.q as int, b.q as int);
    }
}

/// The row of the pair `(p, q)`: on each symbol `0..k` on which both states have a
/// destination, the pair of their first destinations.
fn product_row(a: &Fa, b: &Fa, p: usize, q: usize) -> (row: BTreeMap<i32, Vec<usize>>)
    requires
        a.wf(),
        b.wf(),
        p < a.q,
        q < b.q,
        a.alphabet_size <= i32::MAX,
        a.q * b.q <= usize::MAX,
    ensures
        forall|s: i32| #[trigger] row@.contains_key(s) == (0 <= s < a.alphabet_size && steps(a, p as int, s) && steps(b, q as int, s)),
        forall|s: i32| #[trigger] row@.contains_key(s) ==> row@[s]@ == seq![
            pair_state(a.dests(p as int, s)[0] as int, b.dests(q as int, s)[0] as int, b.q as int) as usize,
        ],
{
    let k = a.alphabet_size as i32;
    let nb = b.q;
    let mut row: BTreeMap<i32, Vec<usize>> = BTreeMap::new();
    let mut s: i32 = 0;
    while s < k
        invariant
            0 <= s <= k,
            k == a.alphabet_size,
            nb == b.q,
            a.wf(),
            b.wf(),
            p < a.q,
            q < b.q,
            a.q * b.q <= usize::MAX,
            forall|t: i32| #[trigger] row@.contains_key(t) == (0 <= t < s && steps(a, p as int, t) && steps(b, q as int, t)),
            forall|t: i32| #[trigger] row@.contains_key(t) ==> row@[t]@ == seq![
                pair_state(a.dests(p as int, t)[0] as int, b.dests(q as int, t)[0] as int, b.q as int) as usize,
            ],
        decreases k - s,
    {
        match (a.d[p].get(&s), b.d[q].get(&s)) {
            (Some(da), Some(db)) => {
                if da.len() > 0 && db.len() > 0 {
                    let x = da[0];
                    let y = db[0];
                    proof {
                        assert(a.dests(p as int, s)[0] == x);
                        assert(b.dests(q as int, s)[0] == y);
                        lemma_pair_bound(x as int, y as int, a.q as int, nb as int);
                    }
                    let mut v: Vec<usize> = Vec::new();
                    v.push(x * nb + y);
                    row.insert(s, v);
                    proof {
                        assert(row@[s]@ =~= seq![pair_state(x as int, y as int, b.q as int) as usize]);
                    }
                }
            },
            _ => {},
        }
        s = s + 1;
    }
    row
}

/// The product of `a` and `b` under `rule`: the pair `(p, q)` is state `p * b.q + q`.
pub fn cross_product(a: &Fa, b: &Fa, rule: ProductRule) -> (r: Fa)
    requires
        a.wf(),
        b.wf(),
        a.q0 < a.q,
        b.q0 < b.q,
        a.alphabet_size == b.alphabet_size,
        a.alphabet_size <= i32::MAX,
    ensures
        is_product(&r, a, b, rule),
        r.spec_deterministic(),
{
    let na = a.q;
    let nb = b.q;
    let mut o: Vec<i32> = Vec::new();
    let mut p: usize = 0;
    while p < na
        invariant
            na == a.q,
            nb == b.q,
            a.wf(),
            b.wf(),
            p <= na,
            o@.len() == p * nb,
            forall|x: int, y: int| 0 <= x < p && 0 <= y < nb ==> #[trigger] o@[pair_state(x, y, nb as int)] == rule_output(
                rule,
                a.o@[x],
                b.o@[y],
            ),
        decreases na - p,
    {
        let mut q: usize = 0;
        while q < nb
            invariant
                na == a.q,
                nb == b.q,
                a.wf(),
                b.wf(),
                p < na,
                q <= nb,
                o@.len() == p * nb + q,
                forall|x: int, y: int| (0 <= x < p && 0 <= y < nb) || (x == p && 0 <= y < q) ==> #[trigger] o@[pair_state(
                    x,
                    y,
                    nb as int,
                )] == rule_output(rule, a.o@[x], b.o@[y]),
            decreases nb - q,
        {
            let ghost o0 = o@;
            let out = rule.output(a.o[p], b.o[q]);
            o.push(out);
            proof {
                assert forall|x: int, y: int| (0 <= x < p && 0 <= y < nb) || (x == p && 0 <= y < q + 1) implies #[trigger] o@[pair_state(
                    x,
                    y,
                    nb as int,
                )] == rule_output(rule, a.o@[x], b.o@[y]) by {
                    if x < p {
                        lemma_pair_bound(x, y, p as int, nb as int);
                    }
                    if !(x == p && y == q) {
                        assert(pair_state(x, y, nb as int) < o0.len());
                    }
                }
            }
            q = q + 1;
        }
        proof {
            assert(p * nb + nb == (p + 1) * nb) by (nonlinear_arith);
        }
        p = p + 1;
    }
    let total = o.len();
    proof {
        assert(total == na * nb);
    }
    let mut d: Vec<BTreeMap<i32, Vec<usize>>> = Vec::new();
    let mut p: usize = 0;
    while p < na
        invariant
            na == a.q,
            nb == b.q,
            a.wf(),
            b.wf(),
            a.alphabet_size <= i32::MAX,
            a.q * b.q <= usize::MAX,
            p <= na,
            o@.len() == na * nb,
            forall|x: int, y: int| 0 <= x < na && 0 <= y < nb ==> #[trigger] o@[pair_state(x, y, nb as int)] == rule_output(
                rule,
                a.o@[x],
                b.o@[y],
            ),
            d@.len() == p * nb,
            forall|x: int, y: int| 0 <= x < p && 0 <= y < nb ==> #[trigger] pair_ok(
                &Fa { true_false: None, q0: 0, q: 0, alphabet_size: a.alphabet_size, o: o, d: d },
                a,
                b,
                rule,
                x,
                y,
            ),
        decreases na - p,
    {
        let mut q: usize = 0;
        while q < nb
            invariant
                na == a.q,
                nb == b.q,
                a.wf(),
                b.wf(),
                a.alphabet_size <= i32::MAX,
                a.q * b.q <= usize::MAX,
                p < na,
                q <= nb,
                o@.len() == na * nb,
                forall|x: int, y: int| 0 <= x < na && 0 <= y < nb ==> #[trigger] o@[pair_state(x, y, nb as int)] == rule_output(
                    rule,
                    a.o@[x],
                    b.o@[y],
                ),
                d@.len() == p * nb + q,
                forall|x: int, y: int| (0 <= x < p && 0 <= y < nb) || (x == p && 0 <= y < q) ==> #[trigger] pair_ok(
                    &Fa { true_false: None, q0: 0, q: 0, alphabet_size: a.alphabet_size, o: o, d: d },
                    a,
                    b,
                    rule,
                    x,
                    y,
                ),
            decreases nb - q,
        {
            proof {
                lemma_pair_bound(p as int, q as int, na as int, nb as int);
            }
            let ghost o0 = o;
            let ghost d0 = d;
            let row = product_row(a, b, p, q);
            d.push(row);
            proof {
                let f0 = Fa { true_false: None, q0: 0, q: 0, alphabet_size: a.alphabet_size, o: o0, d: d0 };
                let f1 = Fa { true_false: None, q0: 0, q: 0, alphabet_size: a.alphabet_size, o: o, d: d };
                assert forall|x: int, y: int| (0 <= x < p && 0 <= y < nb) || (x == p && 0 <= y < q + 1) implies #[trigger] pair_ok(&f1, a, b, rule, x, y) by {
                    if x == p && y == q {
                        assert(pair_state(x, y, nb as int) == d0.len());
                        assert(f1.d@[pair_state(x, y, nb as int)] == row);
                        assert(f1.row(pair_state(x, y, nb as int)) == row@);
                    } else {
                        assert(pair_ok(&f0, a, b, rule, x, y));
                        if x < p {
                            lemma_pair_bound(x, y, p as int, nb as int);
                        }
                        assert(pair_state(x, y, nb as int) < d0.len());
                        assert(f1.d@[pair_state(x, y, nb as int)] == f0.d@[pair_state(x, y, nb as int)]);
                        assert(f1.o@[pair_state(x, y, nb as int)] == f0.o@[pair_state(x, y, nb as int)]);
                        lemma_pair_ok_same(&f0, &f1, a, b, rule, x, y);
                    }
                }
            }
            q = q + 1;
        }
        proof {
            assert(p * nb + nb == (p + 1) * nb) by (nonlinear_arith);
        }
        p = p + 1;
    }
    proof {
        lemma_pair_bound(a.q0 as int, b.q0 as int, na as int, nb as int);
    }
    let r = Fa { true_false: None, q0: a.q0 * nb + b.q0, q: na * nb, alphabet_size: a.alphabet_size, o, d };
    proof {
        let f1 = Fa { true_false: None, q0: 0, q: 0, alphabet_size: a.alphabet_size, o: o, d: d };
        assert forall|x: int, y: int| 0 <= x < a.q && 0 <= y < b.q implies #[trigger] pair_ok(&r, a, b, rule, x, y) by {
            assert(pair_ok(&f1, a, b, rule, x, y));
            lemma_pair_ok_same(&f1, &r, a, b, rule, x, y);
        }
        assert forall|z: int, s: i32, k: int|
            0 <= z < r.q && r.row(z).contains_key(s) && 0 <= k < r.dests(z, s).len() implies #[trigger] r.dests(z, s)[k] < r.q by {
            let x = z / (nb as int);
            let y = z % (nb as int);
            assert(z == x * nb + y && 0 <= y < nb) by (nonlinear_arith)
                requires
                    x == z / (nb as int),
                    y == z % (nb as int),
                    nb > 0,
            ;
            assert(0 <= x < na) by (nonlinear_arith)
                requires
                    z == x * nb + y,
                    0 <= y < nb,
                    0 <= z < na * nb,
            ;
            assert(pair_ok(&r, a, b, rule, x, y));
            assert(pair_state(x, y, nb as int) == z);
            lemma_pair_bound(a.dests(x, s)[0] as int, b.dests(y, s)[0] as int, na as int, nb as int);
        }
        assert forall|z: int, s: i32| 0 <= z < r.d@.len() && #[trigger] r.row(z).contains_key(s) implies r.dests(z, s).len() <= 1 by {
            let x = z / (nb as int);
            let y = z % (nb as int);
            assert(z == x * nb + y && 0 <= y < nb) by (nonlinear_arith)
                requires
                    x == z / (nb as int),
                    y == z % (nb as int),
                    nb > 0,
            ;
            assert(0 <= x < na) by (nonlinear_arith)
                requires
                    z == x * nb + y,
                    0 <= y < nb,
                    0 <= z < na * nb,
            ;
            assert(pair_ok(&r, a, b, rule, x, y));
            assert(pair_state(x, y, nb as int) == z);
        }
    }
    r
}

/// An operand that the connectives can take: a trivial automaton, or a deterministic
/// one with a start state.
pub open spec fn is_operand(a: &Automaton) -> bool {
    a.fa.true_false is None ==> {
        &&& a.fa.wf()
        &&& a.fa.spec_deterministic()
        &&& a.fa.q0 < a.fa.q
        &&& a.fa.alphabet_size <= i32::MAX
    }
}

/// Two operands that can be combined: where neither is trivial, they have the same
/// tracks.
pub open spec fn are_compatible(a: &Automaton, b: &Automaton) -> bool {
    a.fa.true_false is None && b.fa.true_false is None ==> {
        &&& crate::automaton::alphabet_view(a.alphabet@) == crate::automaton::alphabet_view(b.alphabet@)
        &&& a.fa.alphabet_size == b.fa.alphabet_size
    }
}

/// The language of an automaton: everything or nothing for a trivial one.
pub open spec fn in_language(a: &Automaton, w: Seq<i32>) -> bool {
    match a.fa.true_false {
        Some(t) => t,
        None => accepts(&a.fa, w),
    }
}

/// `w` is a word over the alphabet of each operand that is not trivial.
pub open spec fn is_common_word(a: &Automaton, b: &Automaton, w: Seq<i32>) -> bool {
    &&& (a.fa.true_false is None ==> over_alphabet(w, a.fa.alphabet_size as int))
    &&& (b.fa.true_false is None ==> over_alphabet(w, b.fa.alphabet_size as int))
}

/// Every present transition of an operand that is not trivial has a destination.
pub open spec fn is_complete_operand(a: &Automaton) -> bool {
    a.fa.true_false is None ==> has_destinations(&a.fa)
}

/// What each connective promises of its result `r` on the operands `a` and `b`.
pub open spec fn combines(op: BooleanOp, a: &Automaton, b: &Automaton, r: &Automaton) -> bool {
    &&& (a.fa.true_false is Some && b.fa.true_false is Some) ==> r.fa.true_false == Some(
        op_value(op, a.fa.true_false->Some_0, b.fa.true_false->Some_0),
    )
    &&& r.fa.true_false is None ==> {
        &&& r.fa.wf()
        &&& r.fa.spec_deterministic()
        &&& r.fa.q0 < r.fa.q
        &&& (a.fa.true_false is None && r.fa.alphabet_size == a.fa.alphabet_size && crate::automaton::alphabet_view(
            r.alphabet@,
        ) == crate::automaton::alphabet_view(a.alphabet@)) || (b.fa.true_false is None && r.fa.alphabet_size
            == b.fa.alphabet_size && crate::automaton::alphabet_view(r.alphabet@) == crate::automaton::alphabet_view(
            b.alphabet@,
        ))
    }
    &&& (op == BooleanOp::And || (is_complete_operand(a) && is_complete_operand(b))) ==> forall|w: Seq<i32>|
        is_common_word(a, b, w) ==> (#[trigger] in_language(r, w) == op_value(op, in_language(a, w), in_language(b, w)))
}

/// The product of two operands that are not trivial, minimized. For every connective
/// but `And` both operands are first made total, so that a word that one of them has no
/// run on still counts as rejected by it.
fn product_and_minimize(a: Automaton, b: Automaton, op: BooleanOp) -> (r: Automaton)
    requires
        a.fa.true_false is None,
        b.fa.true_false is None,
        is_operand(&a),
        is_operand(&b),
        are_compatible(&a, &b),
    ensures
        r.fa.true_false is None,
        is_partial_dfa(&r.fa),
        is_minimal(&r.fa),
        forall|j: int| 0 <= j < r.fa.q ==> #[trigger] reachable(&r.fa, j),
        forall|w: Seq<i32>| #[trigger] accepts(&r.fa, w) ==> over_alphabet(w, a.fa.alphabet_size as int),
        r.fa.spec_deterministic(),
        r.fa.alphabet_size == a.fa.alphabet_size,
        r.alphabet == a.alphabet,
        r.label == a.label,
        r.msd == a.msd,
        r.ns_name == a.ns_name,
        !r.canonized,
        r.fa.q <= (a.fa.q + 1) * (b.fa.q + 1),
        op == BooleanOp::And || (has_destinations(&a.fa) && has_destinations(&b.fa)) ==> forall|w: Seq<i32>|
            over_alphabet(w, a.fa.alphabet_size as int) ==> (#[trigger] accepts(&r.fa, w) == op_value(
                op,
                accepts(&a.fa, w),
                accepts(&b.fa, w),
            )),
{
    let ghost fa0 = a.fa;
    let ghost fb0 = b.fa;
    let Automaton { fa: mut fa, alphabet, label, msd, canonized: _, ns_name } = a;
    let mut fb = b.fa;
    let qa = fa.q;
    let qb = fb.q;
    proof {
        assert(qa + 1 <= (qa + 1) * (qb + 1)) by (nonlinear_arith)
            requires
                qb >= 0,
                qa >= 0,
        ;
        assert(qb + 1 <= (qa + 1) * (qb + 1)) by (nonlinear_arith)
            requires
                qb >= 0,
                qa >= 0,
        ;
    }
    let total = match op {
        BooleanOp::And => false,
        _ => true,
    };
    if total {
        totalize(&mut fa);
        totalize(&mut fb);
    }
    proof {
        assert(fa.q <= qa + 1 && fb.q <= qb + 1);
        assert(fa.q * fb.q <= (qa + 1) * (qb + 1)) by (nonlinear_arith)
            requires
                0 <= fa.q <= qa + 1,
                0 <= fb.q <= qb + 1,
        ;
    }
    let p = cross_product(&fa, &fb, ProductRule::Connective(op));
    proof {
        lemma_pair_bound(fa.q0 as int, fb.q0 as int, fa.q as int, fb.q as int);
    }
    proof {
        assert forall|z: int, sym: i32| 0 <= z < p.q && #[trigger] p.row(z).contains_key(sym) implies 0 <= sym
            < p.alphabet_size && p.dests(z, sym).len() == 1 by {
            let x = z / (fb.q as int);
            let y = z % (fb.q as int);
            let nb = fb.q as int;
            assert(z == x * nb + y && 0 <= y < nb) by (nonlinear_arith)
                requires
                    x == z / nb,
                    y == z % nb,
                    nb > 0,
            ;
            assert(0 <= x < fa.q) by (nonlinear_arith)
                requires
                    z == x * nb + y,
                    0 <= y < nb,
                    0 <= z < fa.q * nb,
            ;
            assert(pair_ok(&p, &fa, &fb, ProductRule::Connective(op), x, y));
            assert(pair_state(x, y, nb) == z);
        }
    }
    let t = trim_unreachable(&p);
    proof {
        assert forall|z: int, sym: i32| 0 <= z < t.d@.len() && #[trigger] t.row(z).contains_key(sym) implies t.dests(z, sym).len() <= 1 by {
        }
    }
    let m = just_minimize(&t);
    proof {
        lemma_partial_dfa_deterministic(&m);
        assert forall|w: Seq<i32>| #[trigger] accepts(&m, w) implies over_alphabet(w, fa0.alphabet_size as int) by {
            assert(accepts(&t, w) == accepts(&p, w));
            lemma_pair_bound(fa.q0 as int, fb.q0 as int, fa.q as int, fb.q as int);
            lemma_run_symbols(&p, p.q0 as int, w, p.alphabet_size as int);
        }
        if op == BooleanOp::And || (has_destinations(&fa0) && has_destinations(&fb0)) {
            assert forall|w: Seq<i32>| over_alphabet(w, fa0.alphabet_size as int) implies (#[trigger] accepts(&m, w)
                == op_value(op, accepts(&fa0, w), accepts(&fb0, w))) by {
                lemma_product_accepts(&p, &fa, &fb, op, w);
                assert(accepts(&t, w) == accepts(&p, w));
                assert(accepts(&fa, w) == accepts(&fa0, w));
                assert(accepts(&fb, w) == accepts(&fb0, w));
                if total {
                    lemma_total_run(&fa, fa.q0 as int, w);
                    lemma_total_run(&fb, fb.q0 as int, w);
                }
            }
        }
    }
    Automaton { fa: m, alphabet, label, msd, canonized: false, ns_name }
}

pub(crate) proof fn lemma_partial_dfa_deterministic(m: &Fa)
    requires
        is_partial_dfa(m),
    ensures
        m.spec_deterministic(),
{
    assert forall|p: int, sym: i32| 0 <= p < m.d@.len() && #[trigger] m.row(p).contains_key(sym) implies m.dests(p, sym).len() <= 1 by {
        assert(m.dests(p, sym).len() == 1);
    }
}

/// The trivial automaton's truth value, `false` for an ordinary one.
fn is_true(a: &Automaton) -> (r: bool)
    ensures
        r == (a.fa.true_false == Some(true)),
{
    match a.fa.true_false {
        Some(t) => t,
        None => false,
    }
}

/// The complement of a trivial or an ordinary operand, through [`not`].
fn negate(a: Automaton) -> (r: Automaton)
    requires
        is_operand(&a),
    ensures
        r.fa.true_false is None ==> {
            &&& a.fa.true_false is None
            &&& r.fa.wf()
            &&& r.fa.spec_deterministic()
            &&& r.fa.q0 < r.fa.q
            &&& r.fa.alphabet_size == a.fa.alphabet_size
            &&& r.alphabet == a.alphabet
        },
        a.fa.true_false is None ==> r.fa.true_false is None && is_partial_dfa(&r.fa),
        a.fa.true_false matches Some(t) ==> r.fa.true_false == Some(!t),
        is_complete_operand(&a) ==> forall|w: Seq<i32>|
            (a.fa.true_false is None ==> over_alphabet(w, a.fa.alphabet_size as int)) ==> (#[trigger] in_language(&r, w)
                == !in_language(&a, w)),
{
    let ghost a0 = a;
    let r = not(a);
    proof {
        if a0.fa.true_false is None {
            lemma_partial_dfa_deterministic(&r.fa);
        }
    }
    r
}

/// `c` is a copy of `a`: the same fields, the transition maps compared by their contents.
pub open spec fn is_copy(a: &Automaton, c: &Automaton) -> bool {
    &&& c.fa.true_false == a.fa.true_false
    &&& c.fa.q == a.fa.q
    &&& c.fa.q0 == a.fa.q0
    &&& c.fa.alphabet_size == a.fa.alphabet_size
    &&& c.fa.o@ == a.fa.o@
    &&& c.fa.d@.len() == a.fa.d@.len()
    &&& forall|x: int| 0 <= x < a.fa.d@.len() ==> #[trigger] c.fa.d@[x]@ == a.fa.d@[x]@
    &&& crate::automaton::alphabet_view(c.alphabet@) == crate::automaton::alphabet_view(a.alphabet@)
    &&& c.label@ == a.label@
    &&& c.msd@ == a.msd@
    &&& c.ns_name@ == a.ns_name@
    &&& c.canonized == a.canonized
}

/// A copy of an operand is an operand with the same language.
proof fn lemma_copy_facts(a: &Automaton, c: &Automaton)
    requires
        is_copy(a, c),
        is_operand(a),
    ensures
        is_operand(c),
        is_complete_operand(a) ==> is_complete_operand(c),
        forall|w: Seq<i32>| #[trigger] in_language(c, w) == in_language(a, w),
{
    if a.fa.true_false is None {
        crate::quotient::lemma_copy_keeps(&a.fa, &c.fa);
        if has_destinations(&a.fa) {
            assert forall|p: int, sym: i32| 0 <= p < c.fa.q && #[trigger] c.fa.row(p).contains_key(sym) implies c.fa.dests(p, sym).len() > 0 by {
                assert(c.fa.d@[p]@ == a.fa.d@[p]@);
                assert(a.fa.row(p).contains_key(sym));
            }
        }
        assert forall|w: Seq<i32>| #[trigger] in_language(c, w) == in_language(a, w) by {
            crate::fa::lemma_run_rows_same(&a.fa, &c.fa, a.fa.q0 as int, w);
        }
    }
}

/// A verified copy of `a`.
fn copy_of(a: &Automaton) -> (c: Automaton)
    requires
        is_operand(a),
    ensures
        is_copy(a, &c),
        is_operand(&c),
        is_complete_operand(a) ==> is_complete_operand(&c),
        forall|w: Seq<i32>| #[trigger] in_language(&c, w) == in_language(a, w),
{
    let c = crate::leading_zeros::copy_automaton(a);
    proof {
        lemma_copy_facts(a, &c);
    }
    c
}

/// What `or`, `xor`, `imply` and `iff` do to an operand that is not trivial: its
/// transitions are made total in place, and nothing else changes.
pub open spec fn totalized_in_place(old: &Automaton, new: &Automaton) -> bool {
    &&& new.alphabet == old.alphabet
    &&& new.label == old.label
    &&& new.msd == old.msd
    &&& new.canonized == old.canonized
    &&& new.ns_name == old.ns_name
    &&& is_total(&old.fa) ==> new.fa == old.fa
    &&& !is_total(&old.fa) ==> totalized_from(&old.fa, &new.fa) && new.fa.true_false == old.fa.true_false
}

fn totalize_operand(a: &mut Automaton)
    requires
        old(a).fa.wf(),
        old(a).fa.alphabet_size <= i32::MAX,
    ensures
        totalized_in_place(old(a), final(a)),
{
    totalize(&mut a.fa);
}

/// The product of copies of two operands that are not trivial, with `combines` stated of
/// the operands themselves.
fn product_of_copies(a: &Automaton, b: &Automaton, op: BooleanOp) -> (r: Automaton)
    requires
        a.fa.true_false is None,
        b.fa.true_false is None,
        is_operand(a),
        is_operand(b),
        are_compatible(a, b),
    ensures
        combines(op, a, b, &r),
        r.fa.true_false is None && is_partial_dfa(&r.fa) && is_minimal(&r.fa) && all_reachable(&r.fa) && words_over(
            &r.fa,
            a.fa.alphabet_size as int,
        ) && r.fa.q <= (a.fa.q + 1) * (b.fa.q + 1) && r.label@ == a.label@ && r.msd@ == a.msd@,
{
    let ca = copy_of(a);
    let cb = copy_of(b);
    let ghost cag = ca;
    let ghost cbg = cb;
    let r = product_and_minimize(ca, cb, op);
    proof {
        assert forall|w: Seq<i32>| #[trigger] accepts(&r.fa, w) implies over_alphabet(w, a.fa.alphabet_size as int) by {
        }
        if op == BooleanOp::And || (is_complete_operand(a) && is_complete_operand(b)) {
            assert forall|w: Seq<i32>| is_common_word(a, b, w) implies (#[trigger] in_language(&r, w) == op_value(
                op,
                in_language(a, w),
                in_language(b, w),
            )) by {
                assert(in_language(&cag, w) == in_language(a, w));
                assert(in_language(&cbg, w) == in_language(b, w));
                assert(accepts(&r.fa, w) == op_value(op, accepts(&cag.fa, w), accepts(&cbg.fa, w)));
            }
        }
    }
    r
}

/// A copy of a trivial or an ordinary operand, complemented through [`not`].
fn negated_copy(a: &Automaton) -> (r: Automaton)
    requires
        is_operand(a),
    ensures
        r.fa.true_false is None ==> {
            &&& a.fa.true_false is None
            &&& r.fa.wf()
            &&& r.fa.spec_deterministic()
            &&& r.fa.q0 < r.fa.q
            &&& r.fa.alphabet_size == a.fa.alphabet_size
            &&& crate::automaton::alphabet_view(r.alphabet@) == crate::automaton::alphabet_view(a.alphabet@)
        },
        a.fa.true_false is None ==> r.fa.true_false is None && is_partial_dfa(&r.fa),
        a.fa.true_false matches Some(t) ==> r.fa.true_false == Some(!t),
        is_complete_operand(a) ==> forall|w: Seq<i32>|
            (a.fa.true_false is None ==> over_alphabet(w, a.fa.alphabet_size as int)) ==> (#[trigger] in_language(&r, w)
                == !in_language(a, w)),
{
    let c = copy_of(a);
    let ghost cg = c;
    let r = negate(c);
    proof {
        if is_complete_operand(a) {
            assert forall|w: Seq<i32>|
                (a.fa.true_false is None ==> over_alphabet(w, a.fa.alphabet_size as int)) implies (#[trigger] in_language(
                &r,
                w,
            ) == !in_language(a, w)) by {
                assert(in_language(&cg, w) == in_language(a, w));
            }
        }
    }
    r
}

/// What the connectives promise when neither operand is trivial.
pub open spec fn product_result(a: &Automaton, b: &Automaton, r: &Automaton) -> bool {
    &&& r.fa.true_false is None
    &&& is_partial_dfa(&r.fa)
    &&& is_minimal(&r.fa)
    &&& all_reachable(&r.fa)
    &&& words_over(&r.fa, a.fa.alphabet_size as int)
    &&& r.fa.q <= (a.fa.q + 1) * (b.fa.q + 1)
    &&& r.label@ == a.label@
    &&& r.msd@ == a.msd@
}

/// The intersection: a word is accepted when both operands accept it. A trivial
/// operand short-circuits (`true` gives a copy of the other operand, `false` gives
/// `false`); the operands are not made total, since a missing transition already
/// rejects, and they are left as they are.
pub fn and(a: &Automaton, b: &Automaton) -> (r: Automaton)
    requires
        is_operand(a),
        is_operand(b),
        are_compatible(a, b),
    ensures
        combines(BooleanOp::And, a, b, &r),
        a.fa.true_false is None && b.fa.true_false is None ==> product_result(a, b, &r),
{
    if a.fa.is_true_false_automaton() {
        if is_true(a) {
            return copy_of(b);
        }
        return Automaton::true_false(false);
    }
    if b.fa.is_true_false_automaton() {
        if is_true(b) {
            return copy_of(a);
        }
        return Automaton::true_false(false);
    }
    product_of_copies(a, b, BooleanOp::And)
}

/// The union: a word is accepted when either operand accepts it. A trivial operand
/// short-circuits (`true` gives `true`, `false` gives a copy of the other operand) and
/// leaves both operands as they are; otherwise both operands are first made total in
/// place.
pub fn or(a: &mut Automaton, b: &mut Automaton) -> (r: Automaton)
    requires
        is_operand(old(a)),
        is_operand(old(b)),
        are_compatible(old(a), old(b)),
    ensures
        combines(BooleanOp::Or, old(a), old(b), &r),
        old(a).fa.true_false is None && old(b).fa.true_false is None ==> product_result(old(a), old(b), &r)
            && totalized_in_place(old(a), final(a)) && totalized_in_place(old(b), final(b)),
        old(a).fa.true_false is Some || old(b).fa.true_false is Some ==> *final(a) == *old(a) && *final(b) == *old(b),
{
    if a.fa.is_true_false_automaton() {
        if is_true(a) {
            return Automaton::true_false(true);
        }
        return copy_of(b);
    }
    if b.fa.is_true_false_automaton() {
        if is_true(b) {
            return Automaton::true_false(true);
        }
        return copy_of(a);
    }
    let r = product_of_copies(a, b, BooleanOp::Or);
    totalize_operand(a);
    totalize_operand(b);
    r
}

/// The symmetric difference: a word is accepted when exactly one operand accepts it.
/// A trivial operand short-circuits (`true` gives the complement of the other operand,
/// `false` a copy of it) and leaves both operands as they are; otherwise both operands
/// are first made total in place.
pub fn xor(a: &mut Automaton, b: &mut Automaton) -> (r: Automaton)
    requires
        is_operand(old(a)),
        is_operand(old(b)),
        are_compatible(old(a), old(b)),
    ensures
        combines(BooleanOp::Xor, old(a), old(b), &r),
        old(a).fa.true_false is None && old(b).fa.true_false is None ==> product_result(old(a), old(b), &r)
            && totalized_in_place(old(a), final(a)) && totalized_in_place(old(b), final(b)),
        old(a).fa.true_false is Some || old(b).fa.true_false is Some ==> *final(a) == *old(a) && *final(b) == *old(b),
{
    if a.fa.is_true_false_automaton() {
        if is_true(a) {
            return negated_copy(b);
        }
        return copy_of(b);
    }
    if b.fa.is_true_false_automaton() {
        if is_true(b) {
            return negated_copy(a);
        }
        return copy_of(a);
    }
    let r = product_of_copies(a, b, BooleanOp::Xor);
    totalize_operand(a);
    totalize_operand(b);
    r
}

/// The implication: a word is accepted when the first operand rejects it or the second
/// accepts it. A trivial operand short-circuits and leaves both operands as they are:
/// `true => b` is a copy of `b`, `false => b` is `true`, `a => true` is `true`,
/// `a => false` is the complement of `a`. Otherwise both operands are first made total
/// in place.
pub fn imply(a: &mut Automaton, b: &mut Automaton) -> (r: Automaton)
    requires
        is_operand(old(a)),
        is_operand(old(b)),
        are_compatible(old(a), old(b)),
    ensures
        combines(BooleanOp::Imply, old(a), old(b), &r),
        old(a).fa.true_false is None && old(b).fa.true_false is None ==> product_result(old(a), old(b), &r)
            && totalized_in_place(old(a), final(a)) && totalized_in_place(old(b), final(b)),
        old(a).fa.true_false is Some || old(b).fa.true_false is Some ==> *final(a) == *old(a) && *final(b) == *old(b),
{
    if a.fa.is_true_false_automaton() {
        if is_true(a) {
            return copy_of(b);
        }
        return Automaton::true_false(true);
    }
    if b.fa.is_true_false_automaton() {
        if is_true(b) {
            return Automaton::true_false(true);
        }
        return negated_copy(a);
    }
    let r = product_of_copies(a, b, BooleanOp::Imply);
    totalize_operand(a);
    totalize_operand(b);
    r
}

/// The equivalence: a word is accepted when both operands agree on it. With a trivial
/// operand this is `(a => b) and (b => a)`: `true <=> b` is a copy of `b`,
/// `false <=> b` is the complement of `b`, and two trivial operands give whether they
/// agree; the operands are then left as they are. Otherwise both operands are first
/// made total in place.
pub fn iff(a: &mut Automaton, b: &mut Automaton) -> (r: Automaton)
    requires
        is_operand(old(a)),
        is_operand(old(b)),
        are_compatible(old(a), old(b)),
    ensures
        combines(BooleanOp::Iff, old(a), old(b), &r),
        old(a).fa.true_false is None && old(b).fa.true_false is None ==> product_result(old(a), old(b), &r)
            && totalized_in_place(old(a), final(a)) && totalized_in_place(old(b), final(b)),
        old(a).fa.true_false is Some || old(b).fa.true_false is Some ==> *final(a) == *old(a) && *final(b) == *old(b),
{
    if a.fa.is_true_false_automaton() {
        if b.fa.is_true_false_automaton() {
            return Automaton::true_false(is_true(a) == is_true(b));
        }
        if is_true(a) {
            return copy_of(b);
        }
        return negated_copy(b);
    }
    if b.fa.is_true_false_automaton() {
        if is_true(b) {
            return copy_of(a);
        }
        return negated_copy(a);
    }
    let r = product_of_copies(a, b, BooleanOp::Iff);
    totalize_operand(a);
    totalize_operand(b);
    r
}

/// The connectives other than `Imply` are symmetric: swapping the operands gives an
/// automaton of the same language over the common words.
pub proof fn law_symmetric_connectives_commute(op: BooleanOp, a: &Automaton, b: &Automaton, r1: &Automaton, r2: &Automaton)
    requires
        op != BooleanOp::Imply,
        combines(op, a, b, r1),
        combines(op, b, a, r2),
        op == BooleanOp::And || (is_complete_operand(a) && is_complete_operand(b)),
    ensures
        forall|w: Seq<i32>| #[trigger] is_common_word(a, b, w) ==> in_language(r1, w) == in_language(r2, w),
{
    assert forall|w: Seq<i32>| #[trigger] is_common_word(a, b, w) implies in_language(r1, w) == in_language(r2, w) by {
        assert(is_common_word(b, a, w));
    }
}

/// Equivalence is the complement of the symmetric difference over the common words.
pub proof fn law_iff_complements_xor(a: &Automaton, b: &Automaton, r1: &Automaton, r2: &Automaton)
    requires
        combines(BooleanOp::Xor, a, b, r1),
        combines(BooleanOp::Iff, a, b, r2),
        is_complete_operand(a),
        is_complete_operand(b),
    ensures
        forall|w: Seq<i32>| #[trigger] is_common_word(a, b, w) ==> in_language(r2, w) == !in_language(r1, w),
{
}

/// The output of `fa` on `w`: that of the state its run ends in, `0` where there is no
/// run.
pub open spec fn output_of(fa: &Fa, w: Seq<i32>) -> i32 {
    match run_from(fa, fa.q0 as int, w) {
        Some(s) => fa.o@[s],
        None => 0i32,
    }
}

/// The output that [`combine`] gives `w` after folding in the first `i` subautomata: the
/// output paired with the last of them that outputs `1` on `w`, else `outputs[0]` where
/// `a` accepts `w`, else `0`.
pub open spec fn combined_output(a: &Fa, subs: Seq<Automaton>, outputs: Seq<i32>, i: int, w: Seq<i32>) -> i32
    decreases i,
{
    if i <= 0 {
        if accepts(a, w) {
            outputs[0]
        } else {
            0i32
        }
    } else if output_of(&subs[i - 1].fa, w) == 1 {
        outputs[i]
    } else {
        combined_output(a, subs, outputs, i - 1, w)
    }
}

/// How many subautomata [`combine`] folds in: one per output after the first.
pub open spec fn combine_steps(subs: int, outputs: int) -> int {
    if outputs - 1 < subs {
        outputs - 1
    } else {
        subs
    }
}

/// A subautomaton that [`combine`] can take next to an automaton whose alphabet size is
/// `k`.
pub open spec fn combinable(s: &Automaton, k: usize) -> bool {
    &&& s.fa.true_false is None
    &&& s.fa.wf()
    &&& s.fa.spec_deterministic()
    &&& s.fa.q0 < s.fa.q
    &&& has_destinations(&s.fa)
    &&& s.fa.alphabet_size == k
}

/// Totalizing keeps the output of every word over the alphabet.
proof fn lemma_totalize_keeps_output(f0: &Fa, f1: &Fa, w: Seq<i32>)
    requires
        f0.wf(),
        f0.q0 < f0.q,
        is_total(f0) ==> *f1 == *f0,
        !is_total(f0) ==> totalized_from(f0, f1),
    ensures
        output_of(f1, w) == output_of(f0, w),
{
    if !is_total(f0) {
        lemma_totalized_run(f0, f1, f0.q0 as int, w);
        if run_from(f0, f0.q0 as int, w) is Some {
            lemma_run_in_range(f0, f0.q0 as int, w);
        }
    }
}

/// The product of two total automata whose transitions have destinations is again one.
proof fn lemma_product_total(r: &Fa, a: &Fa, b: &Fa, rule: ProductRule)
    requires
        is_product(r, a, b, rule),
        a.alphabet_size == b.alphabet_size,
        is_total(a),
        is_total(b),
        has_destinations(a),
        has_destinations(b),
    ensures
        is_total(r),
        has_destinations(r),
{
    let nb = b.q as int;
    assert forall|z: int, sym: i32| 0 <= z < r.q && 0 <= sym < r.alphabet_size implies #[trigger] r.row(z).contains_key(sym) by {
        let x = z / nb;
        let y = z % nb;
        assert(z == x * nb + y && 0 <= y < nb) by (nonlinear_arith)
            requires
                x == z / nb,
                y == z % nb,
                nb > 0,
        ;
        assert(0 <= x < a.q) by (nonlinear_arith)
            requires
                z == x * nb + y,
                0 <= y < nb,
                0 <= z < a.q * nb,
        ;
        assert(pair_ok(r, a, b, rule, x, y));
        assert(pair_state(x, y, nb) == z);
        assert(a.row(x).contains_key(sym));
        assert(b.row(y).contains_key(sym));
    }
    assert forall|z: int, sym: i32| 0 <= z < r.q && #[trigger] r.row(z).contains_key(sym) implies r.dests(z, sym).len() > 0 by {
        let x = z / nb;
        let y = z % nb;
        assert(z == x * nb + y && 0 <= y < nb) by (nonlinear_arith)
            requires
                x == z / nb,
                y == z % nb,
                nb > 0,
        ;
        assert(0 <= x < a.q) by (nonlinear_arith)
            requires
                z == x * nb + y,
                0 <= y < nb,
                0 <= z < a.q * nb,
        ;
        assert(pair_ok(r, a, b, rule, x, y));
        assert(pair_state(x, y, nb) == z);
    }
}

/// The automaton with outputs that gives each word the output of the last automaton, in
/// the order given, that accepts it: `a`'s accepting states output `outputs[0]`, and the
/// subautomata are folded in one at a time by a product in which a state pair outputs
/// `outputs[i]` where the `i`-th subautomaton outputs `1`, and keeps the output so far
/// elsewhere. Every operand is made total first, so the result is total; its numbering
/// is fixed.
pub fn combine(a: Automaton, subautomata: Vec<Automaton>, outputs: &[i32]) -> (r: Automaton)
    requires
        outputs@.len() >= 1,
        a.fa.true_false is None,
        a.fa.wf(),
        a.fa.spec_deterministic(),
        a.fa.q0 < a.fa.q,
        has_destinations(&a.fa),
        a.fa.alphabet_size <= i32::MAX,
        forall|i: int| 0 <= i < subautomata@.len() ==> #[trigger] combinable(&subautomata@[i], a.fa.alphabet_size),
    ensures
        r.fa.true_false is None,
        r.fa.wf(),
        r.fa.spec_deterministic(),
        is_total(&r.fa),
        r.fa.alphabet_size == a.fa.alphabet_size,
        r.alphabet == a.alphabet,
        r.label == a.label,
        r.msd == a.msd,
        r.canonized,
        forall|w: Seq<i32>|
            over_alphabet(w, a.fa.alphabet_size as int) ==> #[trigger] output_of(&r.fa, w) == combined_output(
                &a.fa,
                subautomata@,
                outputs@,
                combine_steps(subautomata@.len() as int, outputs@.len() as int),
                w,
            ),
{
    let steps: usize = if outputs.len() - 1 < subautomata.len() {
        outputs.len() - 1
    } else {
        subautomata.len()
    };
    let ghost subs = subautomata@;
    let ghost a0 = a.fa;
    let k = a.fa.alphabet_size;
    let Automaton { fa: mut first, alphabet, label, msd, canonized: _, ns_name } = a;
    let n = first.q;
    let mut p: usize = 0;
    while p < n
        invariant
            n == a0.q,
            first.q == a0.q,
            first.q0 == a0.q0,
            first.d == a0.d,
            first.alphabet_size == a0.alphabet_size,
            first.true_false == a0.true_false,
            first.o@.len() == n,
            a0.o@.len() == n,
            outputs@.len() >= 1,
            p <= n,
            forall|x: int| p <= x < n ==> #[trigger] first.o@[x] == a0.o@[x],
            forall|x: int| 0 <= x < p ==> #[trigger] first.o@[x] == if a0.o@[x] != 0 {
                outputs@[0]
            } else {
                0i32
            },
        decreases n - p,
    {
        if first.o[p] != 0 {
            first.o.set(p, outputs[0]);
        }
        p = p + 1;
    }
    proof {
        assert(first.d@ == a0.d@);
        assert forall|p2: int, sym: i32, kk: int|
            #![trigger first.dests(p2, sym)[kk]]
            0 <= p2 < first.q && first.row(p2).contains_key(sym) && 0 <= kk < first.dests(p2, sym).len() implies first.dests(p2, sym)[kk] < first.q by {
            assert(a0.dests(p2, sym)[kk] < a0.q);
        }
        assert(first.wf());
        assert forall|p2: int, sym: i32| 0 <= p2 < first.d@.len() && #[trigger] first.row(p2).contains_key(sym) implies first.dests(p2, sym).len() <= 1 by {
            assert(a0.row(p2).contains_key(sym));
        }
        assert forall|p2: int, sym: i32| 0 <= p2 < first.q && #[trigger] first.row(p2).contains_key(sym) implies first.dests(p2, sym).len() > 0 by {
            assert(a0.row(p2).contains_key(sym));
        }
        assert forall|t: int| 0 <= t < subs.len() implies #[trigger] subs[t].fa.q >= 0 by {
        }
        assert forall|w: Seq<i32>| #[trigger] output_of(&first, w) == combined_output(&a0, subs, outputs@, 0, w) by {
            lemma_run_same(&first, &a0, a0.q0 as int, w);
            if run_from(&a0, a0.q0 as int, w) is Some {
                lemma_run_in_range(&a0, a0.q0 as int, w);
            }
        }
        assert(first.spec_deterministic());
        assert(has_destinations(&first));
    }
    let ghost f_before = first;
    totalize(&mut first);
    proof {
        assert forall|w: Seq<i32>| #[trigger] output_of(&first, w) == combined_output(&a0, subs, outputs@, 0, w) by {
            lemma_totalize_keeps_output(&f_before, &first, w);
        }
    }
    let mut rest = subautomata;
    let mut i: usize = 0;
    while i < steps
        invariant
            steps == combine_steps(subs.len() as int, outputs@.len() as int),
            steps <= subs.len(),
            steps + 1 <= outputs@.len(),
            k == a0.alphabet_size,
            k <= i32::MAX,
            i <= steps,
            rest@ == subs.subrange(i as int, subs.len() as int),
            forall|t: int| 0 <= t < subs.len() ==> #[trigger] combinable(&subs[t], k),
            first.true_false is None,
            first.wf(),
            first.spec_deterministic(),
            is_total(&first),
            has_destinations(&first),
            first.q0 < first.q,
            first.alphabet_size == k,
            forall|w: Seq<i32>|
                over_alphabet(w, k as int) ==> #[trigger] output_of(&first, w) == combined_output(
                    &a0,
                    subs,
                    outputs@,
                    i as int,
                    w,
                ),
        decreases steps - i,
    {
        let ghost rest0 = rest@;
        let sub = rest.remove(0);
        proof {
            assert(sub == subs[i as int]);
            assert(combinable(&subs[i as int], k));
            assert forall|t: int| 0 <= t < subs.len() implies #[trigger] subs[t].fa.q >= 0 by {
            }
        }
        let ghost s0 = sub.fa;
        let mut next = sub.fa;
        totalize(&mut next);
        let c = outputs[i + 1];
        let prod = cross_product(&first, &next, ProductRule::Override(c));
        proof {
            lemma_pair_bound(first.q0 as int, next.q0 as int, first.q as int, next.q as int);
            lemma_product_total(&prod, &first, &next, ProductRule::Override(c));
            assert forall|w: Seq<i32>| over_alphabet(w, k as int) implies #[trigger] output_of(&prod, w) == combined_output(
                &a0,
                subs,
                outputs@,
                i + 1,
                w,
            ) by {
                lemma_product_run(&prod, &first, &next, ProductRule::Override(c), first.q0 as int, next.q0 as int, w);
                lemma_total_run(&first, first.q0 as int, w);
                lemma_total_run(&next, next.q0 as int, w);
                lemma_run_in_range(&first, first.q0 as int, w);
                lemma_run_in_range(&next, next.q0 as int, w);
                let x = run_from(&first, first.q0 as int, w)->Some_0;
                let y = run_from(&next, next.q0 as int, w)->Some_0;
                assert(pair_ok(&prod, &first, &next, ProductRule::Override(c), x, y));
                lemma_totalize_keeps_output(&s0, &next, w);
                assert(output_of(&subs[i as int].fa, w) == output_of(&next, w));
                assert(prod.q0 == pair_state(first.q0 as int, next.q0 as int, next.q as int));
                assert(run_from(&prod, prod.q0 as int, w) == Some(pair_state(x, y, next.q as int)));
                lemma_pair_bound(x, y, first.q as int, next.q as int);
                assert(output_of(&prod, w) == prod.o@[pair_state(x, y, next.q as int)]);
                assert(output_of(&first, w) == first.o@[x]);
                assert(output_of(&next, w) == next.o@[y]);
                assert(output_of(&first, w) == combined_output(&a0, subs, outputs@, i as int, w));
                assert(c == outputs@[i + 1]);
            }
        }
        first = prod;
        i = i + 1;
        proof {
            assert(rest@ =~= subs.subrange(i as int, subs.len() as int));
        }
    }
    let ghost f_last = first;
    totalize(&mut first);
    Automaton { fa: first, alphabet, label, msd, canonized: true, ns_name }
}

} // verus!
