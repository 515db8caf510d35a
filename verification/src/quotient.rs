//! Quotients of languages: the right quotient `L(a) / L(b)`, the words `x` that some
//! word `y` of `L(b)` extends to a word `x y` of `L(a)`, and the left quotient, its
//! mirror image.

use crate::automaton::{alphabet_view, encoding_from, lemma_encoding_bound, symbol_count_from, tuple_in, Automaton};
use crate::fa::{accepts, accepts_from, lemma_run_concat, lemma_run_in_range, lemma_run_rows_same, reachable, run_from, Fa};
use crate::leading_zeros::{copy_names, copy_tracks, decode_digit, digit_position, symbol_digit};
use crate::determinize::{determinize_from, lemma_reach_deterministic, lemma_reach_from_one, marked, nfa_accepts, nfa_reach};
use crate::logicalops::{just_minimize, over_alphabet};
use crate::product::and;
use std::collections::BTreeMap;
use vstd::prelude::*;

verus! {

broadcast use vstd::std_specs::btree::group_btree_axioms;

/// The digits that symbol `s` encodes on the tracks `alph`.
pub open spec fn symbol_tuple(alph: Seq<Seq<i32>>, s: int) -> Seq<i32> {
    Seq::new(alph.len(), |i: int| symbol_digit(alph, s, i))
}

/// The symbol over the tracks `aa` for the digits that symbol `s` encodes over `ba`.
pub open spec fn reencoded(aa: Seq<Seq<i32>>, ba: Seq<Seq<i32>>, s: int) -> int {
    encoding_from(aa, symbol_tuple(ba, s), 0)
}

/// The word `y` over the tracks `ba`, each symbol written over the tracks `aa`.
pub open spec fn reencoded_word(aa: Seq<Seq<i32>>, ba: Seq<Seq<i32>>, y: Seq<i32>) -> Seq<i32> {
    Seq::new(y.len(), |i: int| reencoded(aa, ba, y[i] as int) as i32)
}

/// What writing `b`'s symbols over `a`'s tracks asks: `b`'s transitions are on its own
/// symbols, whose digits all occur on the same tracks of `a`, distinct symbols of one
/// state stay distinct, and `b`'s tracks have digits when it has symbols.
pub open spec fn reencodable(a: &Automaton, b: &Automaton) -> bool {
    let aa = alphabet_view(a.alphabet@);
    let ba = alphabet_view(b.alphabet@);
    &&& ba.len() == aa.len()
    &&& symbol_count_from(aa, 0) <= a.fa.alphabet_size
    &&& a.fa.alphabet_size <= i32::MAX
    &&& b.fa.alphabet_size <= i32::MAX
    &&& b.fa.alphabet_size > 0 ==> forall|k: int| 0 <= k < ba.len() ==> #[trigger] ba[k].len() > 0
    &&& forall|p: int, s: i32|
        0 <= p < b.fa.q && #[trigger] b.fa.row(p).contains_key(s) ==> 0 <= s < b.fa.alphabet_size && tuple_in(
            aa,
            symbol_tuple(ba, s as int),
        )
    &&& forall|p: int, s1: i32, s2: i32|
        0 <= p < b.fa.q && #[trigger] b.fa.row(p).contains_key(s1) && #[trigger] b.fa.row(p).contains_key(s2) && s1
            != s2 ==> reencoded(aa, ba, s1 as int) != reencoded(aa, ba, s2 as int)
}

/// The symbol of `a`'s tracks for the digits of `b`'s symbol `s`.
fn reencode_symbol(a: &Automaton, b_alphabet: &Vec<Vec<i32>>, s: i32) -> (r: i32)
    requires
        0 <= s,
        alphabet_view(b_alphabet@).len() == alphabet_view(a.alphabet@).len(),
        forall|k: int| 0 <= k < b_alphabet@.len() ==> #[trigger] b_alphabet@[k]@.len() > 0,
        tuple_in(alphabet_view(a.alphabet@), symbol_tuple(alphabet_view(b_alphabet@), s as int)),
        symbol_count_from(alphabet_view(a.alphabet@), 0) <= i32::MAX,
    ensures
        r == reencoded(alphabet_view(a.alphabet@), alphabet_view(b_alphabet@), s as int),
        0 <= r < symbol_count_from(alphabet_view(a.alphabet@), 0),
{
    let ghost ba = alphabet_view(b_alphabet@);
    let n = b_alphabet.len();
    let mut t: Vec<i32> = Vec::new();
    let mut i: usize = 0;
    while i < n
        invariant
            n == b_alphabet@.len(),
            i <= n,
            0 <= s,
            ba == alphabet_view(b_alphabet@),
            forall|k: int| 0 <= k < b_alphabet@.len() ==> #[trigger] b_alphabet@[k]@.len() > 0,
            t@ == symbol_tuple(ba, s as int).subrange(0, i as int),
        decreases n - i,
    {
        let d = decode_digit(b_alphabet, s, i);
        t.push(d);
        i = i + 1;
        assert(t@ =~= symbol_tuple(ba, s as int).subrange(0, i as int));
    }
    assert(t@ =~= symbol_tuple(ba, s as int));
    proof {
        lemma_encoding_bound(alphabet_view(a.alphabet@), t@, 0);
    }
    a.encode(&t)
}

/// A copy of `v`.
fn copy_states(v: &Vec<usize>) -> (r: Vec<usize>)
    ensures
        r@ == v@,
{
    let mut r: Vec<usize> = Vec::new();
    let mut i: usize = 0;
    while i < v.len()
        invariant
            i <= v@.len(),
            r@ == v@.subrange(0, i as int),
        decreases v@.len() - i,
    {
        r.push(v[i]);
        i = i + 1;
        assert(r@ =~= v@.subrange(0, i as int));
    }
    assert(r@ =~= v@);
    r
}

/// `f` is `b` with each symbol written over `a`'s tracks.
pub open spec fn reencoding_of(f: &Fa, a: &Automaton, b: &Automaton) -> bool {
    let aa = alphabet_view(a.alphabet@);
    let ba = alphabet_view(b.alphabet@);
    &&& f.true_false is None
    &&& f.q == b.fa.q
    &&& f.q0 == b.fa.q0
    &&& f.o@ == b.fa.o@
    &&& f.alphabet_size == a.fa.alphabet_size
    &&& f.d@.len() == b.fa.q
    &&& forall|p: int, s: i32|
        0 <= p < b.fa.q && #[trigger] b.fa.row(p).contains_key(s) ==> f.row(p).contains_key(
            reencoded(aa, ba, s as int) as i32,
        ) && f.dests(p, reencoded(aa, ba, s as int) as i32) == b.fa.dests(p, s)
    &&& forall|p: int, x: i32|
        0 <= p < b.fa.q && #[trigger] f.row(p).contains_key(x) ==> exists|s: i32|
            #![trigger b.fa.row(p).contains_key(s)]
            b.fa.row(p).contains_key(s) && x == reencoded(aa, ba, s as int) as i32
}

/// `b`'s transition structure with its symbols written over `a`'s tracks.
fn reencode_rows(a: &Automaton, b: &Automaton) -> (f: Fa)
    requires
        b.fa.wf(),
        reencodable(a, b),
    ensures
        reencoding_of(&f, a, b),
        f.wf(),
        b.fa.spec_deterministic() ==> f.spec_deterministic(),
        forall|p: int, x: i32| 0 <= p < f.q && #[trigger] f.row(p).contains_key(x) ==> 0 <= x < a.fa.alphabet_size,
{
    let ghost aa = alphabet_view(a.alphabet@);
    let ghost ba = alphabet_view(b.alphabet@);
    let n = b.fa.q;
    let kb = b.fa.alphabet_size as i32;
    let mut d: Vec<BTreeMap<i32, Vec<usize>>> = Vec::new();
    let mut p: usize = 0;
    while p < n
        invariant
            n == b.fa.q,
            kb == b.fa.alphabet_size,
            b.fa.wf(),
            reencodable(a, b),
            aa == alphabet_view(a.alphabet@),
            ba == alphabet_view(b.alphabet@),
            p <= n,
            d@.len() == p,
            forall|q: int, s: i32|
                0 <= q < p && #[trigger] b.fa.row(q).contains_key(s) ==> d@[q]@.contains_key(reencoded(aa, ba, s as int) as i32)
                    && d@[q]@[reencoded(aa, ba, s as int) as i32]@ == b.fa.dests(q, s),
            forall|q: int, x: i32|
                0 <= q < p && #[trigger] d@[q]@.contains_key(x) ==> exists|s: i32|
                    #![trigger b.fa.row(q).contains_key(s)]
                    b.fa.row(q).contains_key(s) && x == reencoded(aa, ba, s as int) as i32,
        decreases n - p,
    {
        let mut row: BTreeMap<i32, Vec<usize>> = BTreeMap::new();
        let mut sym: i32 = 0;
        while sym < kb
            invariant
                n == b.fa.q,
                kb == b.fa.alphabet_size,
                b.fa.wf(),
                reencodable(a, b),
                aa == alphabet_view(a.alphabet@),
                ba == alphabet_view(b.alphabet@),
                p < n,
                0 <= sym <= kb,
                forall|s: i32|
                    0 <= s < sym && #[trigger] b.fa.row(p as int).contains_key(s) ==> row@.contains_key(
                        reencoded(aa, ba, s as int) as i32,
                    ) && row@[reencoded(aa, ba, s as int) as i32]@ == b.fa.dests(p as int, s),
                forall|x: i32| #[trigger] row@.contains_key(x) ==> exists|s: i32|
                    #![trigger b.fa.row(p as int).contains_key(s)]
                    0 <= s < sym && b.fa.row(p as int).contains_key(s) && x == reencoded(aa, ba, s as int) as i32,
            decreases kb - sym,
        {
            match b.fa.d[p].get(&sym) {
                Some(ds) => {
                    assert(b.fa.row(p as int).contains_key(sym));
                    assert(tuple_in(aa, symbol_tuple(ba, sym as int)));
                    assert forall|k: int| 0 <= k < b.alphabet@.len() implies #[trigger] b.alphabet@[k]@.len() > 0 by {
                        assert(ba[k] == b.alphabet@[k]@);
                    }
                    let x = reencode_symbol(a, &b.alphabet, sym);
                    let v = copy_states(ds);
                    let ghost r0 = row@;
                    row.insert(x, v);
                    proof {
                        assert forall|s: i32|
                            0 <= s < sym + 1 && #[trigger] b.fa.row(p as int).contains_key(s) implies row@.contains_key(
                                reencoded(aa, ba, s as int) as i32,
                            ) && row@[reencoded(aa, ba, s as int) as i32]@ == b.fa.dests(p as int, s) by {
                            if s != sym {
                                assert(reencoded(aa, ba, s as int) != reencoded(aa, ba, sym as int));
                                assert(0 <= reencoded(aa, ba, s as int) < symbol_count_from(aa, 0)) by {
                                    lemma_encoding_bound(aa, symbol_tuple(ba, s as int), 0);
                                }
                            }
                        }
                        assert forall|y: i32| #[trigger] row@.contains_key(y) implies exists|s: i32|
                            #![trigger b.fa.row(p as int).contains_key(s)]
                            0 <= s < sym + 1 && b.fa.row(p as int).contains_key(s) && y == reencoded(aa, ba, s as int) as i32 by {
                            if y != x {
                                assert(r0.contains_key(y));
                            }
                        }
                    }
                },
                None => {},
            }
            sym = sym + 1;
        }
        proof {
            assert forall|s: i32| #[trigger] b.fa.row(p as int).contains_key(s) implies 0 <= s < kb by {
            }
        }
        let ghost d0 = d@;
        d.push(row);
        proof {
            assert forall|q: int, s: i32|
                0 <= q < p + 1 && #[trigger] b.fa.row(q).contains_key(s) implies d@[q]@.contains_key(
                    reencoded(aa, ba, s as int) as i32,
                ) && d@[q]@[reencoded(aa, ba, s as int) as i32]@ == b.fa.dests(q, s) by {
                if q < p {
                    assert(d@[q] == d0[q]);
                }
            }
            assert forall|q: int, x: i32| 0 <= q < p + 1 && #[trigger] d@[q]@.contains_key(x) implies exists|s: i32|
                #![trigger b.fa.row(q).contains_key(s)]
                b.fa.row(q).contains_key(s) && x == reencoded(aa, ba, s as int) as i32 by {
                if q < p {
                    assert(d@[q] == d0[q]);
                } else {
                    assert(d@[q] == row);
                }
            }
        }
        p = p + 1;
    }
    let mut o: Vec<i32> = Vec::new();
    let mut j: usize = 0;
    while j < n
        invariant
            n == b.fa.q,
            b.fa.wf(),
            j <= n,
            o@ == b.fa.o@.subrange(0, j as int),
        decreases n - j,
    {
        o.push(b.fa.o[j]);
        j = j + 1;
        assert(o@ =~= b.fa.o@.subrange(0, j as int));
    }
    assert(o@ =~= b.fa.o@);
    let f = Fa::with_states(b.fa.q0, n, a.fa.alphabet_size, o, d);
    proof {
        assert forall|q: int, x: i32| 0 <= q < f.q && #[trigger] f.row(q).contains_key(x) implies 0 <= x < a.fa.alphabet_size
            && f.dests(q, x).len() == b.fa.dests(q, choose|s: i32| b.fa.row(q).contains_key(s) && x == reencoded(aa, ba, s as int) as i32).len()
            && (forall|kk: int| 0 <= kk < f.dests(q, x).len() ==> f.dests(q, x)[kk] < f.q) by {
            let s = choose|s: i32| b.fa.row(q).contains_key(s) && x == reencoded(aa, ba, s as int) as i32;
            assert(b.fa.row(q).contains_key(s));
            lemma_encoding_bound(aa, symbol_tuple(ba, s as int), 0);
            assert forall|kk: int| 0 <= kk < f.dests(q, x).len() implies f.dests(q, x)[kk] < f.q by {
                assert(b.fa.dests(q, s)[kk] < b.fa.q);
            }
        }
        assert forall|q: int, sym: i32, kk: int|
            #![trigger f.dests(q, sym)[kk]]
            0 <= q < f.q && f.row(q).contains_key(sym) && 0 <= kk < f.dests(q, sym).len() implies f.dests(q, sym)[kk] < f.q by {
        }
        if b.fa.spec_deterministic() {
            assert forall|q: int, sym: i32| 0 <= q < f.d@.len() && #[trigger] f.row(q).contains_key(sym) implies f.dests(q, sym).len() <= 1 by {
                let s = choose|s: i32| b.fa.row(q).contains_key(s) && sym == reencoded(aa, ba, s as int) as i32;
                assert(b.fa.row(q).contains_key(s));
            }
        }
    }
    f
}

/// Reading a word of `b` in its re-encoding `f` follows the same states.
proof fn lemma_reencoded_run(f: &Fa, a: &Automaton, b: &Automaton, p: int, y: Seq<i32>)
    requires
        reencoding_of(f, a, b),
        b.fa.wf(),
        0 <= p < b.fa.q,
        run_from(&b.fa, p, y) is Some,
    ensures
        run_from(f, p, reencoded_word(alphabet_view(a.alphabet@), alphabet_view(b.alphabet@), y)) == run_from(&b.fa, p, y),
    decreases y.len(),
{
    let aa = alphabet_view(a.alphabet@);
    let ba = alphabet_view(b.alphabet@);
    if y.len() > 0 {
        let u = y.drop_last();
        let w = reencoded_word(aa, ba, y);
        assert(w.drop_last() =~= reencoded_word(aa, ba, u));
        lemma_reencoded_run(f, a, b, p, u);
        lemma_run_in_range(&b.fa, p, u);
        let r = run_from(&b.fa, p, u)->Some_0;
        assert(b.fa.row(r).contains_key(y.last()));
        assert(w.last() == reencoded(aa, ba, y.last() as int) as i32);
    }
}

/// A word that the re-encoding `f` reads is the re-encoding of a word of `b` that `b`
/// reads into the same state.
proof fn lemma_reencoded_back(f: &Fa, a: &Automaton, b: &Automaton, p: int, w: Seq<i32>) -> (y: Seq<i32>)
    requires
        reencoding_of(f, a, b),
        b.fa.wf(),
        0 <= p < b.fa.q,
        run_from(f, p, w) is Some,
    ensures
        w == reencoded_word(alphabet_view(a.alphabet@), alphabet_view(b.alphabet@), y),
        run_from(&b.fa, p, y) == run_from(f, p, w),
    decreases w.len(),
{
    let aa = alphabet_view(a.alphabet@);
    let ba = alphabet_view(b.alphabet@);
    if w.len() == 0 {
        let y = Seq::<i32>::empty();
        assert(w =~= reencoded_word(aa, ba, y));
        y
    } else {
        let u = w.drop_last();
        let y0 = lemma_reencoded_back(f, a, b, p, u);
        lemma_run_in_range(&b.fa, p, y0);
        let r = run_from(&b.fa, p, y0)->Some_0;
        let x = w.last();
        assert(f.row(r).contains_key(x));
        let s = choose|s: i32| #[trigger] b.fa.row(r).contains_key(s) && x == reencoded(aa, ba, s as int) as i32;
        let y = y0.push(s);
        assert(y.drop_last() =~= y0);
        assert(w =~= reencoded_word(aa, ba, y)) by {
            assert forall|i: int| 0 <= i < w.len() implies w[i] == reencoded_word(aa, ba, y)[i] by {
                if i < u.len() {
                    assert(u[i] == w[i]);
                    assert(reencoded_word(aa, ba, y0)[i] == reencoded_word(aa, ba, y)[i]);
                }
            }
        }
        y
    }
}

/// A copy of `f` that starts in `q0` and has the outputs `o`.
pub(crate) fn copy_fa_with(f: &Fa, q0: usize, o: Vec<i32>) -> (g: Fa)
    ensures
        g.true_false == f.true_false,
        g.q == f.q,
        g.q0 == q0,
        g.alphabet_size == f.alphabet_size,
        g.o == o,
        g.d@.len() == f.d@.len(),
        forall|x: int| 0 <= x < f.d@.len() ==> #[trigger] g.d@[x]@ == f.d@[x]@,
{
    let mut d: Vec<BTreeMap<i32, Vec<usize>>> = Vec::new();
    let mut p: usize = 0;
    while p < f.d.len()
        invariant
            p <= f.d@.len(),
            d@.len() == p,
            forall|x: int| 0 <= x < p ==> #[trigger] d@[x]@ == f.d@[x]@,
        decreases f.d@.len() - p,
    {
        let row = f.d[p].clone();
        let ghost d0 = d@;
        d.push(row);
        proof {
            assert forall|x: int| 0 <= x < p + 1 implies #[trigger] d@[x]@ == f.d@[x]@ by {
                if x < p {
                    assert(d@[x] == d0[x]);
                }
            }
        }
        p = p + 1;
    }
    Fa { true_false: f.true_false, q0, q: f.q, alphabet_size: f.alphabet_size, o, d }
}

/// A copy of `v`.
pub(crate) fn copy_outputs(v: &Vec<i32>) -> (r: Vec<i32>)
    ensures
        r@ == v@,
{
    let mut r: Vec<i32> = Vec::new();
    let mut i: usize = 0;
    while i < v.len()
        invariant
            i <= v@.len(),
            r@ == v@.subrange(0, i as int),
        decreases v@.len() - i,
    {
        r.push(v[i]);
        i = i + 1;
        assert(r@ =~= v@.subrange(0, i as int));
    }
    assert(r@ =~= v@);
    r
}

/// Rows copied from a well-formed automaton make a well-formed one, deterministic when
/// the original is.
pub(crate) proof fn lemma_copy_keeps(f: &Fa, g: &Fa)
    requires
        f.wf(),
        g.q == f.q,
        g.o@.len() == f.q,
        g.d@.len() == f.d@.len(),
        forall|x: int| 0 <= x < f.d@.len() ==> #[trigger] g.d@[x]@ == f.d@[x]@,
    ensures
        g.wf(),
        f.spec_deterministic() ==> g.spec_deterministic(),
{
    assert forall|p: int, sym: i32, k: int|
        #![trigger g.dests(p, sym)[k]]
        0 <= p < g.q && g.row(p).contains_key(sym) && 0 <= k < g.dests(p, sym).len() implies g.dests(p, sym)[k] < g.q by {
        assert(g.d@[p]@ == f.d@[p]@);
        assert(f.dests(p, sym)[k] < f.q);
    }
    if f.spec_deterministic() {
        assert forall|p: int, sym: i32| 0 <= p < g.d@.len() && #[trigger] g.row(p).contains_key(sym) implies g.dests(p, sym).len() <= 1 by {
            assert(g.d@[p]@ == f.d@[p]@);
            assert(f.row(p).contains_key(sym));
        }
    }
}

/// Whether some state outputs a nonzero value.
fn has_accepting_state(f: &Fa) -> (r: bool)
    requires
        f.o@.len() == f.q,
    ensures
        r == exists|j: int| 0 <= j < f.q && #[trigger] f.o@[j] != 0,
{
    let mut j: usize = 0;
    while j < f.q
        invariant
            f.o@.len() == f.q,
            j <= f.q,
            forall|x: int| 0 <= x < j ==> #[trigger] f.o@[x] == 0,
        decreases f.q - j,
    {
        if f.o[j] != 0 {
            assert(f.o@[j as int] != 0);
            return true;
        }
        j = j + 1;
    }
    false
}

/// From state `j` of `a`, some word over the alphabet `0..k` is accepted that `c`
/// accepts too.
pub open spec fn meets(a: &Fa, c: &Fa, j: int, k: int) -> bool {
    exists|w: Seq<i32>| #[trigger] over_alphabet(w, k) && accepts_from(a, j, w) && accepts(c, w)
}

/// An operand of a quotient: an ordinary deterministic automaton with a start state.
pub open spec fn quotient_operand(a: &Automaton) -> bool {
    &&& a.fa.true_false is None
    &&& a.fa.wf()
    &&& a.fa.spec_deterministic()
    &&& a.fa.q0 < a.fa.q
}

/// The right quotient of `L(a)` by `L(b)`: the automaton over `a`'s tracks that
/// accepts a word `x` exactly when some word `y` of `b`, written over `a`'s tracks,
/// gives a word `x y` of `a`. A state of `a` is made accepting when the intersection of
/// what it accepts with `L(b)` is not empty; the result is then minimized and its
/// numbering fixed. Unless `skip_subset_check`, `b`'s digits must occur in `a`'s tracks.
pub fn right_quotient(a: &Automaton, b: &Automaton, skip_subset_check: bool) -> (r: Automaton)
    requires
        quotient_operand(a),
        quotient_operand(b),
        reencodable(a, b),
        skip_subset_check || crate::logicalops::subset_alphabet(b.alphabet@, a.alphabet@),
    ensures
        r.fa.true_false is None,
        crate::minimize::is_partial_dfa(&r.fa),
        crate::minimize::is_minimal(&r.fa),
        r.fa.alphabet_size == a.fa.alphabet_size,
        alphabet_view(r.alphabet@) == alphabet_view(a.alphabet@),
        r.label@ == a.label@,
        r.msd@ == a.msd@,
        r.ns_name@ == a.ns_name@,
        r.canonized,
        forall|x: Seq<i32>|
            over_alphabet(x, a.fa.alphabet_size as int) ==> (#[trigger] accepts(&r.fa, x) <==> exists|y: Seq<i32>|
                #![trigger accepts(&b.fa, y)]
                accepts(&b.fa, y) && accepts(
                    &a.fa,
                    x + reencoded_word(alphabet_view(a.alphabet@), alphabet_view(b.alphabet@), y),
                )),
{
    let ghost aa = alphabet_view(a.alphabet@);
    let ghost ba = alphabet_view(b.alphabet@);
    let ghost ka = a.fa.alphabet_size as int;
    let bp = reencode_rows(a, b);
    let n = a.fa.q;
    let mut o: Vec<i32> = Vec::new();
    let mut i: usize = 0;
    while i < n
        invariant
            n == a.fa.q,
            quotient_operand(a),
            quotient_operand(b),
            reencodable(a, b),
                reencoding_of(&bp, a, b),
            bp.wf(),
            bp.spec_deterministic(),
            ka == a.fa.alphabet_size,
            i <= n,
            o@.len() == i,
            forall|j: int| 0 <= j < i ==> (#[trigger] o@[j] == 1 <==> meets(&a.fa, &bp, j, ka)) && (o@[j] == 0
                || o@[j] == 1),
        decreases n - i,
    {
        let (al1, lab1, ms1) = copy_tracks(a);
        let (al2, lab2, ms2) = copy_tracks(a);
        let ft = copy_fa_with(&a.fa, i, copy_outputs(&a.fa.o));
        let fo = copy_fa_with(&bp, bp.q0, copy_outputs(&bp.o));
        proof {
            lemma_copy_keeps(&a.fa, &ft);
            lemma_copy_keeps(&bp, &fo);
        }
        let t = Automaton::new(ft, al1, lab1, ms1);
        let other = Automaton::new(fo, al2, lab2, ms2);
        let ghost tg = t;
        let ghost og = other;
        let r = and(&t, &other);
        let ne = has_accepting_state(&r.fa);
        proof {
            assert forall|w: Seq<i32>| #[trigger] accepts(&tg.fa, w) == accepts_from(&a.fa, i as int, w) by {
                lemma_run_rows_same(&a.fa, &tg.fa, i as int, w);
            }
            assert forall|w: Seq<i32>| #[trigger] accepts(&og.fa, w) == accepts(&bp, w) by {
                lemma_run_rows_same(&bp, &og.fa, bp.q0 as int, w);
            }
            if ne {
                let j = choose|j: int| 0 <= j < r.fa.q && #[trigger] r.fa.o@[j] != 0;
                assert(reachable(&r.fa, j));
                let w = choose|w: Seq<i32>| #[trigger] run_from(&r.fa, r.fa.q0 as int, w) == Some(j);
                assert(accepts(&r.fa, w));
                assert(over_alphabet(w, ka));
                assert(crate::product::is_common_word(&tg, &og, w));
                assert(crate::product::in_language(&r, w));
                assert(meets(&a.fa, &bp, i as int, ka));
            }
            if meets(&a.fa, &bp, i as int, ka) {
                let w = choose|w: Seq<i32>| #[trigger] over_alphabet(w, ka) && accepts_from(&a.fa, i as int, w) && accepts(&bp, w);
                assert(crate::product::is_common_word(&tg, &og, w));
                assert(accepts(&tg.fa, w));
                assert(accepts(&og.fa, w));
                assert(crate::product::in_language(&r, w) == (crate::product::in_language(&tg, w)
                    && crate::product::in_language(&og, w)));
                assert(accepts(&r.fa, w));
                let s = run_from(&r.fa, r.fa.q0 as int, w)->Some_0;
                lemma_run_in_range(&r.fa, r.fa.q0 as int, w);
                assert(r.fa.o@[s] != 0);
            }
        }
        o.push(if ne { 1 } else { 0 });
        i = i + 1;
    }
    let mfa = copy_fa_with(&a.fa, a.fa.q0, o);
    proof {
        lemma_copy_keeps(&a.fa, &mfa);
    }
    let mm = just_minimize(&mfa);
    let (al, lab, ms) = copy_tracks(a);
    proof {
        assert forall|x: Seq<i32>| over_alphabet(x, ka) implies (#[trigger] accepts(&mm, x) <==> exists|y: Seq<i32>|
            #![trigger accepts(&b.fa, y)]
            accepts(&b.fa, y) && accepts(&a.fa, x + reencoded_word(aa, ba, y))) by {
            lemma_quotient_word(a, b, &bp, &mfa, x);
            assert(accepts(&mm, x) == accepts(&mfa, x));
        }
    }
    let mut res = Automaton::new(mm, al, lab, ms);
    res.set_ns_names(copy_names(a));
    res.set_canonized(true);
    res
}

/// How a word `x` reads in `a` with the quotient's outputs, `mfa`.
proof fn lemma_quotient_word(a: &Automaton, b: &Automaton, bp: &Fa, mfa: &Fa, x: Seq<i32>)
    requires
        quotient_operand(a),
        quotient_operand(b),
        reencoding_of(bp, a, b),
        forall|p: int, z: i32| 0 <= p < bp.q && #[trigger] bp.row(p).contains_key(z) ==> 0 <= z < a.fa.alphabet_size,
        bp.wf(),
        mfa.q == a.fa.q,
        mfa.q0 == a.fa.q0,
        mfa.o@.len() == a.fa.q,
        mfa.d@.len() == a.fa.d@.len(),
        forall|z: int| 0 <= z < a.fa.d@.len() ==> #[trigger] mfa.d@[z]@ == a.fa.d@[z]@,
        forall|j: int| 0 <= j < a.fa.q ==> (#[trigger] mfa.o@[j] == 1 <==> meets(&a.fa, bp, j, a.fa.alphabet_size as int)) && (
            mfa.o@[j] == 0 || mfa.o@[j] == 1),
    ensures
        accepts(mfa, x) <==> exists|y: Seq<i32>|
            #![trigger accepts(&b.fa, y)]
            accepts(&b.fa, y) && accepts(
                &a.fa,
                x + reencoded_word(alphabet_view(a.alphabet@), alphabet_view(b.alphabet@), y),
            ),
{
    let aa = alphabet_view(a.alphabet@);
    let ba = alphabet_view(b.alphabet@);
    let ka = a.fa.alphabet_size as int;
    let q0 = a.fa.q0 as int;
    lemma_run_rows_same(&a.fa, mfa, q0, x);
    if accepts(mfa, x) {
        lemma_run_in_range(&a.fa, q0, x);
        let s = run_from(&a.fa, q0, x)->Some_0;
        assert(meets(&a.fa, bp, s, ka));
        let w = choose|w: Seq<i32>| #[trigger] over_alphabet(w, ka) && accepts_from(&a.fa, s, w) && accepts(bp, w);
        let y = lemma_reencoded_back(bp, a, b, bp.q0 as int, w);
        assert(accepts(&b.fa, y));
        lemma_run_concat(&a.fa, q0, x, w);
        assert(accepts(&a.fa, x + reencoded_word(aa, ba, y)));
    }
    if exists|y: Seq<i32>| #![trigger accepts(&b.fa, y)] accepts(&b.fa, y) && accepts(&a.fa, x + reencoded_word(aa, ba, y)) {
        let y = choose|y: Seq<i32>| #![trigger accepts(&b.fa, y)] accepts(&b.fa, y) && accepts(&a.fa, x + reencoded_word(aa, ba, y));
        let w = reencoded_word(aa, ba, y);
        lemma_reencoded_run(bp, a, b, b.fa.q0 as int, y);
        assert(accepts(bp, w));
        crate::logicalops::lemma_run_symbols(bp, bp.q0 as int, w, ka);
        lemma_run_concat(&a.fa, q0, x, w);
        lemma_run_in_range(&a.fa, q0, x);
        let s = run_from(&a.fa, q0, x)->Some_0;
        assert(accepts_from(&a.fa, s, w));
        assert(meets(&a.fa, bp, s, ka));
    }
}

/// Some word over the alphabet `0..k` that `c` accepts leads `a` from its start state to
/// `s`.
pub open spec fn reached_by(a: &Fa, c: &Fa, s: int, k: int) -> bool {
    exists|w: Seq<i32>| #[trigger] over_alphabet(w, k) && run_from(a, a.q0 as int, w) == Some(s) && accepts(c, w)
}

/// In a deterministic automaton, reading from a set of states accepts exactly what one
/// of them accepts.
proof fn lemma_marked_accepts(fa: &Fa, bits: Seq<bool>, w: Seq<i32>)
    requires
        fa.wf(),
        fa.spec_deterministic(),
        bits.len() == fa.q,
    ensures
        nfa_accepts(fa, marked(bits), w) <==> exists|s: int| 0 <= s < fa.q && bits[s] && #[trigger] accepts_from(fa, s, w),
{
    if nfa_accepts(fa, marked(bits), w) {
        let t = choose|t: int| #[trigger] nfa_reach(fa, marked(bits), w).contains(t) && fa.accepting(t);
        lemma_reach_from_one(fa, marked(bits), w, t);
        let x = choose|x: int| #[trigger] marked(bits).contains(x) && nfa_reach(fa, set![x], w).contains(t);
        lemma_reach_deterministic(fa, x, w);
        assert(accepts_from(fa, x, w));
    }
    if exists|s: int| 0 <= s < fa.q && bits[s] && #[trigger] accepts_from(fa, s, w) {
        let x = choose|s: int| 0 <= s < fa.q && bits[s] && #[trigger] accepts_from(fa, s, w);
        lemma_reach_deterministic(fa, x, w);
        let t = run_from(fa, x, w)->Some_0;
        assert(nfa_reach(fa, set![x], w).contains(t));
        assert(marked(bits).contains(x));
        lemma_reach_from_one(fa, marked(bits), w, t);
        assert(nfa_reach(fa, marked(bits), w).contains(t));
    }
}

/// The left quotient of `L(a)` by `L(b)`: the automaton over `a`'s tracks that accepts
/// a word `x` exactly when some word `y` of `b`, written over `a`'s tracks, gives a word
/// `y x` of `a`. It reads `a` from the states that words of `b` lead to; the result is
/// minimized, keeps `a`'s reading directions and has its numbering fixed. `a`'s digits
/// must occur in `b`'s tracks.
pub fn left_quotient(a: &Automaton, b: &Automaton) -> (r: Automaton)
    requires
        quotient_operand(a),
        quotient_operand(b),
        reencodable(a, b),
        crate::logicalops::subset_alphabet(a.alphabet@, b.alphabet@),
    ensures
        r.fa.true_false is None,
        crate::minimize::is_partial_dfa(&r.fa),
        crate::minimize::is_minimal(&r.fa),
        r.fa.alphabet_size == a.fa.alphabet_size,
        alphabet_view(r.alphabet@) == alphabet_view(a.alphabet@),
        r.label@ == a.label@,
        r.msd@ == a.msd@,
        r.ns_name@ == a.ns_name@,
        r.canonized,
        forall|x: Seq<i32>|
            over_alphabet(x, a.fa.alphabet_size as int) ==> (#[trigger] accepts(&r.fa, x) <==> exists|y: Seq<i32>|
                #![trigger accepts(&b.fa, y)]
                accepts(&b.fa, y) && accepts(
                    &a.fa,
                    reencoded_word(alphabet_view(a.alphabet@), alphabet_view(b.alphabet@), y) + x,
                )),
{
    let ghost aa = alphabet_view(a.alphabet@);
    let ghost ba = alphabet_view(b.alphabet@);
    let ghost ka = a.fa.alphabet_size as int;
    let bp = reencode_rows(a, b);
    let n = a.fa.q;
    let mut init: Vec<bool> = Vec::new();
    let mut s: usize = 0;
    while s < n
        invariant
            n == a.fa.q,
            quotient_operand(a),
            quotient_operand(b),
            reencodable(a, b),
                reencoding_of(&bp, a, b),
            bp.wf(),
            bp.spec_deterministic(),
            ka == a.fa.alphabet_size,
            s <= n,
            init@.len() == s,
            forall|j: int| 0 <= j < s ==> (#[trigger] init@[j] <==> reached_by(&a.fa, &bp, j, ka)),
        decreases n - s,
    {
        let mut o: Vec<i32> = Vec::new();
        let mut j: usize = 0;
        while j < n
            invariant
                j <= n,
                s < n,
                o@.len() == j,
                forall|x: int| 0 <= x < j ==> #[trigger] o@[x] == if x == s { 1i32 } else { 0i32 },
            decreases n - j,
        {
            o.push(if j == s { 1 } else { 0 });
            j = j + 1;
        }
        let (al1, lab1, ms1) = copy_tracks(a);
        let (al2, lab2, ms2) = copy_tracks(a);
        let ft = copy_fa_with(&a.fa, a.fa.q0, o);
        let fo = copy_fa_with(&bp, bp.q0, copy_outputs(&bp.o));
        proof {
            lemma_copy_keeps(&a.fa, &ft);
            lemma_copy_keeps(&bp, &fo);
        }
        let t = Automaton::new(ft, al1, lab1, ms1);
        let other = Automaton::new(fo, al2, lab2, ms2);
        let ghost tg = t;
        let ghost og = other;
        let r = and(&t, &other);
        let ne = has_accepting_state(&r.fa);
        proof {
            assert forall|w: Seq<i32>| #[trigger] accepts(&tg.fa, w) == (run_from(&a.fa, a.fa.q0 as int, w) == Some(
                s as int,
            )) by {
                lemma_run_rows_same(&a.fa, &tg.fa, a.fa.q0 as int, w);
                if run_from(&a.fa, a.fa.q0 as int, w) is Some {
                    lemma_run_in_range(&a.fa, a.fa.q0 as int, w);
                }
            }
            assert forall|w: Seq<i32>| #[trigger] accepts(&og.fa, w) == accepts(&bp, w) by {
                lemma_run_rows_same(&bp, &og.fa, bp.q0 as int, w);
            }
            if ne {
                let j = choose|j: int| 0 <= j < r.fa.q && #[trigger] r.fa.o@[j] != 0;
                assert(reachable(&r.fa, j));
                let w = choose|w: Seq<i32>| #[trigger] run_from(&r.fa, r.fa.q0 as int, w) == Some(j);
                assert(accepts(&r.fa, w));
                assert(over_alphabet(w, ka));
                assert(crate::product::is_common_word(&tg, &og, w));
                assert(crate::product::in_language(&r, w));
                assert(accepts(&tg.fa, w));
                assert(reached_by(&a.fa, &bp, s as int, ka));
            }
            if reached_by(&a.fa, &bp, s as int, ka) {
                let w = choose|w: Seq<i32>| #[trigger] over_alphabet(w, ka) && run_from(&a.fa, a.fa.q0 as int, w) == Some(
                    s as int,
                ) && accepts(&bp, w);
                assert(crate::product::is_common_word(&tg, &og, w));
                assert(accepts(&tg.fa, w));
                assert(accepts(&og.fa, w));
                assert(crate::product::in_language(&r, w) == (crate::product::in_language(&tg, w)
                    && crate::product::in_language(&og, w)));
                assert(accepts(&r.fa, w));
                let z = run_from(&r.fa, r.fa.q0 as int, w)->Some_0;
                lemma_run_in_range(&r.fa, r.fa.q0 as int, w);
                assert(r.fa.o@[z] != 0);
            }
        }
        init.push(ne);
        s = s + 1;
    }
    let ghost bits = init@;
    let det = determinize_from(&a.fa, init);
    proof {
        crate::product::lemma_partial_dfa_deterministic(&det);
    }
    let mm = just_minimize(&det);
    let (al, lab, ms) = copy_tracks(a);
    proof {
        assert forall|x: Seq<i32>| over_alphabet(x, ka) implies (#[trigger] accepts(&mm, x) <==> exists|y: Seq<i32>|
            #![trigger accepts(&b.fa, y)]
            accepts(&b.fa, y) && accepts(&a.fa, reencoded_word(aa, ba, y) + x)) by {
            assert(accepts(&mm, x) == accepts(&det, x));
            lemma_marked_accepts(&a.fa, bits, x);
            lemma_left_word(a, b, &bp, bits, x);
        }
    }
    let mut res = Automaton::new(mm, al, lab, ms);
    res.set_ns_names(copy_names(a));
    res.set_canonized(true);
    res
}

/// A word `x` is read from a state that words of `b` lead to exactly when some word of
/// `b` followed by `x` is a word of `a`.
proof fn lemma_left_word(a: &Automaton, b: &Automaton, bp: &Fa, bits: Seq<bool>, x: Seq<i32>)
    requires
        quotient_operand(a),
        quotient_operand(b),
        reencoding_of(bp, a, b),
        forall|p: int, z: i32| 0 <= p < bp.q && #[trigger] bp.row(p).contains_key(z) ==> 0 <= z < a.fa.alphabet_size,
        bp.wf(),
        bits.len() == a.fa.q,
        forall|j: int| 0 <= j < a.fa.q ==> (#[trigger] bits[j] <==> reached_by(&a.fa, bp, j, a.fa.alphabet_size as int)),
    ensures
        (exists|s: int| 0 <= s < a.fa.q && bits[s] && #[trigger] accepts_from(&a.fa, s, x)) <==> exists|y: Seq<i32>|
            #![trigger accepts(&b.fa, y)]
            accepts(&b.fa, y) && accepts(
                &a.fa,
                reencoded_word(alphabet_view(a.alphabet@), alphabet_view(b.alphabet@), y) + x,
            ),
{
    let aa = alphabet_view(a.alphabet@);
    let ba = alphabet_view(b.alphabet@);
    let ka = a.fa.alphabet_size as int;
    let q0 = a.fa.q0 as int;
    if exists|s: int| 0 <= s < a.fa.q && bits[s] && #[trigger] accepts_from(&a.fa, s, x) {
        let s = choose|s: int| 0 <= s < a.fa.q && bits[s] && #[trigger] accepts_from(&a.fa, s, x);
        assert(reached_by(&a.fa, bp, s, ka));
        let w = choose|w: Seq<i32>| #[trigger] over_alphabet(w, ka) && run_from(&a.fa, q0, w) == Some(s) && accepts(bp, w);
        let y = lemma_reencoded_back(bp, a, b, bp.q0 as int, w);
        assert(accepts(&b.fa, y));
        lemma_run_concat(&a.fa, q0, w, x);
        assert(accepts(&a.fa, reencoded_word(aa, ba, y) + x));
    }
    if exists|y: Seq<i32>| #![trigger accepts(&b.fa, y)] accepts(&b.fa, y) && accepts(&a.fa, reencoded_word(aa, ba, y) + x) {
        let y = choose|y: Seq<i32>| #![trigger accepts(&b.fa, y)] accepts(&b.fa, y) && accepts(&a.fa, reencoded_word(aa, ba, y) + x);
        let w = reencoded_word(aa, ba, y);
        lemma_reencoded_run(bp, a, b, b.fa.q0 as int, y);
        assert(accepts(bp, w));
        crate::logicalops::lemma_run_symbols(bp, bp.q0 as int, w, ka);
        lemma_run_concat(&a.fa, q0, w, x);
        lemma_run_in_range(&a.fa, q0, w);
        let s = run_from(&a.fa, q0, w)->Some_0;
        assert(reached_by(&a.fa, bp, s, ka));
        assert(accepts_from(&a.fa, s, x));
    }
}

} // verus!
