//! Dropping the states that no word reaches from the start state.

use crate::fa::{accepts, lemma_run_in_range, reachable, run_from, Fa};
use std::collections::BTreeMap;
use vstd::prelude::*;

verus! {

broadcast use vstd::std_specs::btree::group_btree_axioms;

/// Every transition of `fa` is on a symbol `0..alphabet_size` and has one destination.
pub open spec fn single_dests_in_alphabet(fa: &Fa) -> bool {
    forall|p: int, sym: i32|
        0 <= p < fa.q && #[trigger] fa.row(p).contains_key(sym) ==> 0 <= sym < fa.alphabet_size && fa.dests(p, sym).len()
            == 1
}

/// The states found so far: `order` lists them without repeats, `seen` marks them, and
/// `id` numbers each by its place in `order`.
spec fn found(fa: &Fa, seen: Seq<bool>, order: Seq<usize>, id: Seq<usize>) -> bool {
    &&& seen.len() == fa.q
    &&& id.len() == fa.q
    &&& forall|j: int| 0 <= j < order.len() ==> #[trigger] order[j] < fa.q && seen[order[j] as int] && id[order[j] as int] == j
    &&& forall|p: int| 0 <= p < fa.q && #[trigger] seen[p] ==> id[p] < order.len() && order[id[p] as int] == p
}

/// The states of `order` before `i` have all their destinations found.
spec fn closed_upto(fa: &Fa, seen: Seq<bool>, order: Seq<usize>, i: int) -> bool {
    forall|j: int, sym: i32|
        0 <= j < i && #[trigger] fa.row(order[j] as int).contains_key(sym) ==> seen[fa.dests(order[j] as int, sym)[0] as int]
}

/// `t` is `fa` restricted to the states listed in `order`, state `j` of `t` being state
/// `order[j]` of `fa`.
pub open spec fn restricted(fa: &Fa, t: &Fa, order: Seq<usize>, id: Seq<usize>) -> bool {
    &&& t.q == order.len()
    &&& t.wf()
    &&& t.true_false == fa.true_false
    &&& t.alphabet_size == fa.alphabet_size
    &&& id.len() == fa.q
    &&& forall|j: int| 0 <= j < order.len() ==> #[trigger] order[j] < fa.q && id[order[j] as int] == j
    &&& forall|j: int| 0 <= j < order.len() ==> t.o@[j] == fa.o@[#[trigger] order[j] as int]
    &&& forall|j: int, sym: i32|
        0 <= j < order.len() ==> #[trigger] t.row(j).contains_key(sym) == fa.row(order[j] as int).contains_key(sym)
    &&& forall|j: int, sym: i32|
        0 <= j < order.len() && #[trigger] t.row(j).contains_key(sym) ==> t.dests(j, sym) == seq![
            id[fa.dests(order[j] as int, sym)[0] as int],
        ] && id[fa.dests(order[j] as int, sym)[0] as int] < order.len()
            && order[id[fa.dests(order[j] as int, sym)[0] as int] as int] == fa.dests(order[j] as int, sym)[0]
}

/// The restriction reads as the original from each kept state.
proof fn lemma_restricted_run(fa: &Fa, t: &Fa, order: Seq<usize>, id: Seq<usize>, j: int, w: Seq<i32>)
    requires
        fa.wf(),
        single_dests_in_alphabet(fa),
        restricted(fa, t, order, id),
        0 <= j < order.len(),
    ensures
        run_from(t, j, w) == match run_from(fa, order[j] as int, w) {
            Some(s) => Some(id[s] as int),
            None => None::<int>,
        },
        run_from(t, j, w) matches Some(x) ==> 0 <= x < order.len() && order[x] == run_from(fa, order[j] as int, w)->Some_0,
    decreases w.len(),
{
    if w.len() > 0 {
        let u = w.drop_last();
        let a = w.last();
        lemma_restricted_run(fa, t, order, id, j, u);
        if run_from(t, j, u) is Some {
            let x = run_from(t, j, u)->Some_0;
            let s = order[x] as int;
            assert(t.row(x).contains_key(a) == fa.row(s).contains_key(a));
            if fa.row(s).contains_key(a) {
                assert(fa.dests(s, a).len() == 1);
                assert(t.dests(x, a) == seq![id[fa.dests(s, a)[0] as int]]);
            }
        }
    }
}

/// Keeps only the states that some word reaches from the start state, numbered in the
/// order a breadth-first search meets them, the start state first.
pub fn trim_unreachable(fa: &Fa) -> (r: Fa)
    requires
        fa.wf(),
        fa.q0 < fa.q,
        single_dests_in_alphabet(fa),
        fa.alphabet_size <= i32::MAX,
    ensures
        r.wf(),
        r.q0 == 0,
        1 <= r.q <= fa.q,
        r.true_false == fa.true_false,
        r.alphabet_size == fa.alphabet_size,
        single_dests_in_alphabet(&r),
        forall|w: Seq<i32>| #[trigger] accepts(&r, w) == accepts(fa, w),
        forall|j: int| 0 <= j < r.q ==> #[trigger] reachable(&r, j),
{
    let n = fa.q;
    let k = fa.alphabet_size as i32;
    let mut seen: Vec<bool> = Vec::new();
    let mut id: Vec<usize> = Vec::new();
    let mut x: usize = 0;
    while x < n
        invariant
            x <= n,
            seen@.len() == x,
            id@.len() == x,
            forall|p: int| 0 <= p < x ==> !#[trigger] seen@[p],
        decreases n - x,
    {
        seen.push(false);
        id.push(0);
        x = x + 1;
    }
    let mut order: Vec<usize> = Vec::new();
    seen.set(fa.q0, true);
    id.set(fa.q0, 0);
    order.push(fa.q0);
    assert(order@ == seq![fa.q0]);
    assert(run_from(fa, fa.q0 as int, Seq::<i32>::empty()) == Some(fa.q0 as int));
    assert(reachable(fa, order@[0] as int));
    let mut i: usize = 0;
    while i < order.len()
        invariant
            n == fa.q,
            k == fa.alphabet_size,
            fa.wf(),
            single_dests_in_alphabet(fa),
            found(fa, seen@, order@, id@),
            closed_upto(fa, seen@, order@, i as int),
            i <= order@.len(),
            order@.len() <= n,
            order@[0] == fa.q0,
            order@.len() >= 1,
            forall|j: int| 0 <= j < order@.len() ==> #[trigger] reachable(fa, order@[j] as int),
        decreases n - i,
    {
        let p = order[i];
        assert(order@[i as int] < fa.q);
        let mut sym: i32 = 0;
        while sym < k
            invariant
                n == fa.q,
                k == fa.alphabet_size,
                fa.wf(),
                single_dests_in_alphabet(fa),
                found(fa, seen@, order@, id@),
                closed_upto(fa, seen@, order@, i as int),
                i < order@.len(),
                p == order@[i as int],
                p < n,
                order@.len() <= n,
                order@[0] == fa.q0,
                forall|j: int| 0 <= j < order@.len() ==> #[trigger] reachable(fa, order@[j] as int),
                0 <= sym <= k,
                forall|s: i32| 0 <= s < sym && #[trigger] fa.row(p as int).contains_key(s) ==> seen@[fa.dests(p as int, s)[0] as int],
            decreases k - sym,
        {
            match fa.d[p].get(&sym) {
                Some(ds) => {
                    assert(fa.d@[p as int]@.contains_key(sym));
                    assert(fa.row(p as int).contains_key(sym));
                    assert(ds@ == fa.dests(p as int, sym));
                    assert(fa.dests(p as int, sym).len() == 1);
                    let dst = ds[0];
                    assert(dst < n);
                    if !seen[dst] {
                        proof {
                            lemma_found_bound(fa, seen@, order@, id@);
                        }
                        let ghost s0 = seen@;
                        let ghost o0 = order@;
                        let ghost i0 = id@;
                        proof {
                            assert(reachable(fa, order@[i as int] as int));
                            let w0 = choose|w: Seq<i32>| #[trigger] run_from(fa, fa.q0 as int, w) == Some(p as int);
                            let w1 = w0.push(sym);
                            assert(w1.drop_last() =~= w0);
                            assert(run_from(fa, fa.q0 as int, w1) == Some(dst as int));
                            assert(reachable(fa, dst as int));
                        }
                        seen.set(dst, true);
                        id.set(dst, order.len());
                        order.push(dst);
                        proof {
                            assert forall|j: int| 0 <= j < order@.len() implies #[trigger] reachable(fa, order@[j] as int) by {
                                if j < o0.len() {
                                    assert(order@[j] == o0[j]);
                                }
                            }
                            assert forall|j: int| 0 <= j < order@.len() implies #[trigger] order@[j] < fa.q && seen@[order@[j] as int]
                                && id@[order@[j] as int] == j by {
                                if j < o0.len() {
                                    assert(o0[j] != dst);
                                }
                            }
                            assert forall|q: int| 0 <= q < fa.q && #[trigger] seen@[q] implies id@[q] < order@.len()
                                && order@[id@[q] as int] == q by {
                                if q != dst as int {
                                    assert(s0[q]);
                                }
                            }
                            assert forall|j: int, s: i32|
                                0 <= j < i && #[trigger] fa.row(order@[j] as int).contains_key(s) implies seen@[fa.dests(
                                    order@[j] as int,
                                    s,
                                )[0] as int] by {
                                assert(order@[j] == o0[j]);
                                assert(s0[fa.dests(o0[j] as int, s)[0] as int]);
                            }
                        }
                    }
                },
                None => {},
            }
            sym = sym + 1;
        }
        proof {
            assert forall|j: int, s: i32|
                0 <= j < i + 1 && #[trigger] fa.row(order@[j] as int).contains_key(s) implies seen@[fa.dests(
                    order@[j] as int,
                    s,
                )[0] as int] by {
                if j == i {
                    assert(0 <= s < k);
                }
            }
        }
        i = i + 1;
    }
    let m = order.len();
    let mut o: Vec<i32> = Vec::new();
    let mut d: Vec<BTreeMap<i32, Vec<usize>>> = Vec::new();
    let mut j: usize = 0;
    while j < m
        invariant
            n == fa.q,
            k == fa.alphabet_size,
            fa.wf(),
            single_dests_in_alphabet(fa),
            found(fa, seen@, order@, id@),
            closed_upto(fa, seen@, order@, m as int),
            forall|j2: int| 0 <= j2 < order@.len() ==> #[trigger] reachable(fa, order@[j2] as int),
            m == order@.len(),
            j <= m,
            o@.len() == j,
            d@.len() == j,
            forall|j2: int| 0 <= j2 < j ==> o@[j2] == fa.o@[#[trigger] order@[j2] as int],
            forall|j2: int, sym: i32|
                0 <= j2 < j ==> #[trigger] d@[j2]@.contains_key(sym) == fa.row(order@[j2] as int).contains_key(sym),
            forall|j2: int, sym: i32|
                0 <= j2 < j && #[trigger] d@[j2]@.contains_key(sym) ==> d@[j2]@[sym]@ == seq![
                    id@[fa.dests(order@[j2] as int, sym)[0] as int],
                ],
        decreases m - j,
    {
        let p = order[j];
        assert(order@[j as int] < fa.q);
        let mut row: BTreeMap<i32, Vec<usize>> = BTreeMap::new();
        let mut sym: i32 = 0;
        while sym < k
            invariant
                n == fa.q,
                k == fa.alphabet_size,
                fa.wf(),
                single_dests_in_alphabet(fa),
                found(fa, seen@, order@, id@),
                closed_upto(fa, seen@, order@, m as int),
                m == order@.len(),
                j < m,
                p == order@[j as int],
                p < n,
                0 <= sym <= k,
                forall|s: i32| #[trigger] row@.contains_key(s) == (0 <= s < sym && fa.row(p as int).contains_key(s)),
                forall|s: i32| #[trigger] row@.contains_key(s) ==> row@[s]@ == seq![id@[fa.dests(p as int, s)[0] as int]],
            decreases k - sym,
        {
            match fa.d[p].get(&sym) {
                Some(ds) => {
                    assert(fa.d@[p as int]@.contains_key(sym));
                    assert(fa.row(p as int).contains_key(sym));
                    assert(ds@ == fa.dests(p as int, sym));
                    assert(fa.dests(p as int, sym).len() == 1);
                    let dst = ds[0];
                    let mut v: Vec<usize> = Vec::new();
                    v.push(id[dst]);
                    row.insert(sym, v);
                    assert(row@[sym]@ =~= seq![id@[fa.dests(p as int, sym)[0] as int]]);
                },
                None => {},
            }
            sym = sym + 1;
        }
        proof {
            assert forall|s: i32| #[trigger] row@.contains_key(s) == fa.row(p as int).contains_key(s) by {
                if fa.row(p as int).contains_key(s) {
                    assert(0 <= s < k);
                }
            }
        }
        let ghost o0 = o@;
        let ghost d0 = d@;
        o.push(fa.o[p]);
        d.push(row);
        proof {
            assert forall|j2: int, sym: i32|
                0 <= j2 < j + 1 implies #[trigger] d@[j2]@.contains_key(sym) == fa.row(order@[j2] as int).contains_key(sym) by {
                if j2 < j {
                    assert(d@[j2] == d0[j2]);
                }
            }
            assert forall|j2: int, sym: i32|
                0 <= j2 < j + 1 && #[trigger] d@[j2]@.contains_key(sym) implies d@[j2]@[sym]@ == seq![
                    id@[fa.dests(order@[j2] as int, sym)[0] as int],
                ] by {
                if j2 < j {
                    assert(d@[j2] == d0[j2]);
                }
            }
        }
        j = j + 1;
    }
    let t = Fa { true_false: fa.true_false, q0: 0, q: m, alphabet_size: fa.alphabet_size, o, d };
    proof {
        assert forall|j2: int, sym: i32|
            0 <= j2 < m && #[trigger] t.row(j2).contains_key(sym) implies t.dests(j2, sym) == seq![
                id@[fa.dests(order@[j2] as int, sym)[0] as int],
            ] && id@[fa.dests(order@[j2] as int, sym)[0] as int] < m && order@[id@[fa.dests(order@[j2] as int, sym)[0] as int] as int]
                == fa.dests(order@[j2] as int, sym)[0] by {
            let q = order@[j2] as int;
            assert(fa.row(q).contains_key(sym));
            assert(seen@[fa.dests(q, sym)[0] as int]);
            assert(fa.dests(q, sym)[0] < n);
        }
        assert forall|p: int, sym: i32, kk: int|
            #![trigger t.dests(p, sym)[kk]]
            0 <= p < t.q && t.row(p).contains_key(sym) && 0 <= kk < t.dests(p, sym).len() implies t.dests(p, sym)[kk] < t.q by {
            let q = order@[p] as int;
            assert(fa.row(q).contains_key(sym));
            assert(seen@[fa.dests(q, sym)[0] as int]);
            assert(fa.dests(q, sym)[0] < n);
        }
        assert(t.wf());
        assert(restricted(fa, &t, order@, id@));
        assert forall|p: int, sym: i32| 0 <= p < t.q && #[trigger] t.row(p).contains_key(sym) implies 0 <= sym < t.alphabet_size
            && t.dests(p, sym).len() == 1 by {
            assert(fa.row(order@[p] as int).contains_key(sym));
        }
        assert forall|j2: int| 0 <= j2 < t.q implies #[trigger] reachable(&t, j2) by {
            assert(reachable(fa, order@[j2] as int));
            let w = choose|w: Seq<i32>| #[trigger] run_from(fa, fa.q0 as int, w) == Some(order@[j2] as int);
            lemma_restricted_run(fa, &t, order@, id@, 0, w);
            assert(id@[order@[j2] as int] == j2);
            assert(run_from(&t, 0, w) == Some(j2));
        }
        assert forall|w: Seq<i32>| #[trigger] accepts(&t, w) == accepts(fa, w) by {
            lemma_restricted_run(fa, &t, order@, id@, 0, w);
            if run_from(fa, fa.q0 as int, w) is Some {
                lemma_run_in_range(fa, fa.q0 as int, w);
                let s = run_from(fa, fa.q0 as int, w)->Some_0;
                let x = run_from(&t, 0, w)->Some_0;
                assert(order@[x] == s);
                assert(t.o@[x] == fa.o@[order@[x] as int]);
            }
        }
    }
    t
}

/// A state not yet found leaves room for one more.
proof fn lemma_found_bound(fa: &Fa, seen: Seq<bool>, order: Seq<usize>, id: Seq<usize>)
    requires
        found(fa, seen, order, id),
        exists|p: int| 0 <= p < fa.q && !seen[p],
    ensures
        order.len() < fa.q,
{
    let p0 = choose|p: int| 0 <= p < fa.q && !seen[p];
    let g = |j: int| -> int { if j == order.len() { p0 } else { order[j] as int } };
    assert forall|a: int, b: int| 0 <= a < order.len() + 1 && 0 <= b < order.len() + 1 && a != b implies #[trigger] g(a) != #[trigger] g(b) by {
        if a < order.len() && b < order.len() {
            assert(id[order[a] as int] == a);
            assert(id[order[b] as int] == b);
        } else if a == order.len() {
            assert(seen[order[b] as int]);
        } else {
            assert(seen[order[a] as int]);
        }
    }
    assert forall|a: int| 0 <= a < order.len() + 1 implies 0 <= #[trigger] g(a) < fa.q by {
    }
    crate::minimize::lemma_pigeonhole((order.len() + 1) as int, fa.q as int, g);
}

} // verus!
