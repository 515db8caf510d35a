//! A number system: its name, reading direction, and the addition, less-than and
//! equality automata that the arithmetic of formulas is built from.

use crate::addition::{
    addition_tracks_ok, digits_below, is_base_addition, is_equality_table, is_lex_less_than, less_than_law, less_than_tracks_ok,
    set_addition_automaton,
    set_less_than_automaton,
};
use crate::automaton::{alphabet_view, Automaton};
use crate::fa::{accepts, run_from, Fa};
use crate::logicalops::{has_destinations, over_alphabet, reversible};
use crate::numsys::{
    base_text, determine_base, determine_msd_or_lsd, digits_value, direction_text, equality_automaton, first_underscore,
    is_number_text, msd_value, pair_symbol, pair_word, relation_holds, same_tracks, same_text, CustomBaseCandidates,
    CustomBaseFiles, NumSysError, RelationalOp,
};
use vstd::prelude::*;
use vstd::string::*;

verus! {

/// A number system and the automata that describe it.
pub struct NumberSystem {
    /// Its name, such as `msd_2` or `lsd_fib`.
    pub name: String,
    /// Whether digits are read most significant first.
    pub is_msd: bool,
    /// Accepts the triples `(x, y, z)` with `x + y = z`.
    pub addition: Automaton,
    /// Accepts the pairs `(x, y)` with `x < y`.
    pub less_than: Automaton,
    /// Accepts the pairs `(x, y)` with `x = y`.
    pub equality: Automaton,
    /// The automaton of the valid representations, when the base has one.
    pub all_representations: Option<Automaton>,
}

/// `p` occurs in `s`.
pub open spec fn has_infix(s: Seq<char>, p: Seq<char>) -> bool {
    exists|i: int| 0 <= i && i + p.len() <= s.len() && #[trigger] s.subrange(i, i + p.len()) == p
}

/// Whether `p` occurs in `s`.
fn contains_text(s: &str, p: &str) -> (r: bool)
    ensures
        r == has_infix(s@, p@),
{
    let n = s.unicode_len();
    let m = p.unicode_len();
    if m > n {
        proof {
            assert forall|i: int| 0 <= i && i + p@.len() <= s@.len() implies #[trigger] s@.subrange(i, i + p@.len()) != p@ by {
            }
        }
        return false;
    }
    let mut i: usize = 0;
    while i <= n - m
        invariant
            n == s@.len(),
            m == p@.len(),
            m <= n,
            i <= n - m + 1,
            forall|k: int| 0 <= k < i ==> #[trigger] s@.subrange(k, k + m) != p@,
        decreases n - i,
    {
        let mut j: usize = 0;
        let mut same = true;
        while j < m
            invariant
                n == s@.len(),
                m == p@.len(),
                i + m <= n,
                j <= m,
                same == forall|k: int| 0 <= k < j ==> s@[i + k] == p@[k],
            decreases m - j,
        {
            if s.get_char(i + j) != p.get_char(j) {
                same = false;
            }
            j = j + 1;
        }
        if same {
            assert(s@.subrange(i as int, i + m) =~= p@);
            return true;
        }
        assert(s@.subrange(i as int, i + m) != p@) by {
            let k = choose|k: int| 0 <= k < m && s@[i + k] != p@[k];
            assert(s@.subrange(i as int, i + m)[k] == s@[i + k]);
        }
        i = i + 1;
    }
    proof {
        assert forall|k: int| 0 <= k && k + p@.len() <= s@.len() implies #[trigger] s@.subrange(k, k + p@.len()) != p@ by {
            assert(k < i);
        }
    }
    false
}

/// A copy of `v`.
fn copy_digits(v: &Vec<i32>) -> (r: Vec<i32>)
    ensures
        r@ == v@,
{
    let mut r: Vec<i32> = Vec::new();
    let mut i: usize = 0;
    while i < v.len()
        invariant
            i <= v@.len(),
            r@ == v@.subrange(0, i as int),
        decreases v@.len() - i,
    {
        r.push(v[i]);
        i = i + 1;
        assert(r@ =~= v@.subrange(0, i as int));
    }
    assert(r@ =~= v@);
    r
}

/// Every automaton that a custom-base lookup can give has a first track of at most
/// 46340 digits, so that pairs of its digits fit in an `i32`.
pub open spec fn digits_fit(c: CustomBaseCandidates) -> bool {
    &&& (c.main matches Some(m) ==> m.alphabet@.len() >= 1 ==> m.alphabet@[0]@.len() <= 46340)
    &&& (c.complement matches Some(m) ==> m.alphabet@.len() >= 1 ==> m.alphabet@[0]@.len() <= 46340)
}

/// What a custom-base lookup needs to be resolved: a fallback that can be reversed.
pub open spec fn resolvable(c: CustomBaseCandidates) -> bool {
    c.main is None && c.complement is Some ==> reversible(&c.complement->Some_0)
}

/// The lookup finds nothing.
pub open spec fn no_file(c: CustomBaseCandidates) -> bool {
    c.main is None && c.complement is None
}

/// The tracks of the automaton a custom-base lookup gives: those of the file named after
/// the number system, else those of the file of the other direction (reversing keeps
/// the tracks).
pub open spec fn candidate_tracks(c: CustomBaseCandidates) -> Seq<Seq<i32>> {
    match c.main {
        Some(m) => alphabet_view(m.alphabet@),
        None => match c.complement {
            Some(x) => alphabet_view(x.alphabet@),
            None => Seq::empty(),
        },
    }
}

/// The addition automaton of the number system `name` can be set up from the lookup
/// `c`: a file whose tracks pass [`addition_tracks_ok`], or, with no file, a numeric base
/// above one that fits in an `i32`.
pub open spec fn addition_available(c: CustomBaseCandidates, name: Seq<char>) -> bool {
    if no_file(c) {
        let b = base_text(name);
        is_number_text(b) && 1 < digits_value(b) <= i32::MAX
    } else {
        addition_tracks_ok(candidate_tracks(c))
    }
}

/// The digits of the addition automaton's first track.
pub open spec fn addition_digits(c: CustomBaseCandidates, name: Seq<char>) -> Seq<i32> {
    if no_file(c) {
        digits_below(digits_value(base_text(name)))
    } else {
        candidate_tracks(c)[0]
    }
}

/// The less-than automaton can be set up from the lookup `c` on the digits `digits`:
/// with no file it is built, else the file's tracks must pass [`less_than_tracks_ok`].
pub open spec fn less_than_available(c: CustomBaseCandidates, digits: Seq<i32>) -> bool {
    no_file(c) || less_than_tracks_ok(candidate_tracks(c), digits)
}

/// An automaton that a comparison can take: a trivial one, or a deterministic one with a
/// start state whose symbols fit in an `i32`.
pub open spec fn comparable(a: &Automaton) -> bool {
    a.fa.true_false is None ==> {
        &&& a.fa.wf()
        &&& a.fa.spec_deterministic()
        &&& a.fa.alphabet_size <= i32::MAX
        &&& a.fa.q > 0 ==> a.fa.q0 < a.fa.q
    }
}

/// The automaton a comparison starts from: the equality automaton for `=` and `!=`, the
/// less-than automaton otherwise.
pub open spec fn comparison_base(ns: &NumberSystem, op: RelationalOp) -> Automaton {
    match op {
        RelationalOp::Equal | RelationalOp::NotEqual => ns.equality,
        _ => ns.less_than,
    }
}

/// The comparison reads its two variables in the other order: `>` and `<=`.
pub open spec fn comparison_swaps(op: RelationalOp) -> bool {
    op == RelationalOp::GreaterThan || op == RelationalOp::LessEqThan
}

/// The comparison is the complement of its base: `!=`, `>=` and `<=`.
pub open spec fn comparison_negates(op: RelationalOp) -> bool {
    op == RelationalOp::NotEqual || op == RelationalOp::GreaterEqThan || op == RelationalOp::LessEqThan
}

/// The number system reads base-`k` numbers most significant digit first: its
/// less-than automaton is the lexicographic table and its equality automaton the
/// diagonal one, on `k` digits.
pub open spec fn plain_msd_tables(ns: &NumberSystem, k: int) -> bool {
    &&& 2 <= k <= 46340
    &&& is_lex_less_than(&ns.less_than.fa, k)
    &&& is_equality_table(&ns.equality.fa, k)
}

/// The word whose symbols pair the digits of `x` and `y` in the order of the two
/// `labels`: the track labelled `a` reads `x` and the other track reads `y`.
pub open spec fn labelled_pair_word(labels: Seq<String>, a: Seq<char>, k: int, x: Seq<int>, y: Seq<int>) -> Seq<i32> {
    if labels[0]@ == a {
        pair_word(k, x, y)
    } else {
        pair_word(k, y, x)
    }
}

/// A pair of digits below `k` is a symbol below `k * k`.
proof fn lemma_pair_symbol_bound(k: int, x: int, y: int)
    requires
        0 <= x < k,
        0 <= y < k,
    ensures
        0 <= pair_symbol(k, x, y) < k * k,
        k <= 46340 ==> k * k <= i32::MAX,
{
    assert(0 <= x + k * y < k * k) by (nonlinear_arith)
        requires
            0 <= x < k,
            0 <= y < k,
    ;
    if k <= 46340 {
        assert(k * k <= 46340 * 46340) by (nonlinear_arith)
            requires
                0 <= k <= 46340,
        ;
    }
}

/// Two equally long digit words below `k` pair into a word over the `k * k` symbols.
proof fn lemma_pair_word_over(k: int, x: Seq<int>, y: Seq<int>)
    requires
        k <= 46340,
        x.len() == y.len(),
        crate::numsys::digits_below(k, x),
        crate::numsys::digits_below(k, y),
    ensures
        over_alphabet(pair_word(k, x, y), k * k),
{
    let w = pair_word(k, x, y);
    assert forall|i: int| 0 <= i < w.len() implies 0 <= #[trigger] w[i] < k * k by {
        lemma_pair_symbol_bound(k, x[i], y[i]);
    }
}

/// The lexicographic less-than table accepts the pair of two equally long base-`k`
/// numbers exactly when the first is smaller.
pub proof fn law_lex_table_compares(f: &Fa, k: int, x: Seq<int>, y: Seq<int>)
    requires
        2 <= k <= 46340,
        is_lex_less_than(f, k),
        x.len() == y.len(),
        crate::numsys::digits_below(k, x),
        crate::numsys::digits_below(k, y),
    ensures
        accepts(f, pair_word(k, x, y)) == (msd_value(k, x) < msd_value(k, y)),
{
    assert forall|p: int, q: int| 0 <= p < k && 0 <= q < k implies #[trigger] f.d@[1]@.contains_key(
        pair_symbol(k, p, q) as i32,
    ) by {
        lemma_pair_symbol_bound(k, p, q);
    }
    crate::numsys::law_less_than_msd_compares(f, k, x, y);
}

/// Reading two equally long base-`k` numbers in the equality table stays in its state
/// exactly while they are equal.
proof fn lemma_equality_run(f: &Fa, k: int, x: Seq<int>, y: Seq<int>)
    requires
        2 <= k <= 46340,
        is_equality_table(f, k),
        x.len() == y.len(),
        crate::numsys::digits_below(k, x),
        crate::numsys::digits_below(k, y),
    ensures
        run_from(f, 0, pair_word(k, x, y)) == if msd_value(k, x) == msd_value(k, y) {
            Some(0int)
        } else {
            None::<int>
        },
    decreases x.len(),
{
    let w = pair_word(k, x, y);
    if x.len() > 0 {
        let x0 = x.drop_last();
        let y0 = y.drop_last();
        assert(crate::numsys::digits_below(k, x0)) by {
            assert forall|t: int| 0 <= t < x0.len() implies 0 <= #[trigger] x0[t] < k by {
                assert(x0[t] == x[t]);
            }
        }
        assert(crate::numsys::digits_below(k, y0)) by {
            assert forall|t: int| 0 <= t < y0.len() implies 0 <= #[trigger] y0[t] < k by {
                assert(y0[t] == y[t]);
            }
        }
        lemma_equality_run(f, k, x0, y0);
        assert(w.drop_last() =~= pair_word(k, x0, y0));
        let last = x.len() - 1;
        let dx = x[last];
        let dy = y[last];
        assert(0 <= dx < k && 0 <= dy < k);
        let sym = pair_symbol(k, dx, dy) as i32;
        assert(w.last() == sym);
        assert(f.d@[0]@.contains_key(sym) <==> dx == dy);
        if dx == dy {
            assert(f.d@[0]@[pair_symbol(k, dx, dx) as i32]@ == seq![0usize]);
        }
        let va = msd_value(k, x0);
        let vb = msd_value(k, y0);
        assert(msd_value(k, x) == k * va + dx);
        assert(msd_value(k, y) == k * vb + dy);
        if va < vb {
            assert(k * va + dx < k * vb + dy) by (nonlinear_arith)
                requires
                    va < vb,
                    0 <= dx < k,
                    0 <= dy < k,
            ;
        } else if va > vb {
            assert(k * va + dx > k * vb + dy) by (nonlinear_arith)
                requires
                    va > vb,
                    0 <= dx < k,
                    0 <= dy < k,
            ;
        }
    }
}

/// The equality table accepts the pair of two equally long base-`k` numbers exactly
/// when they are equal.
pub proof fn law_equality_table_compares(f: &Fa, k: int, x: Seq<int>, y: Seq<int>)
    requires
        2 <= k <= 46340,
        is_equality_table(f, k),
        x.len() == y.len(),
        crate::numsys::digits_below(k, x),
        crate::numsys::digits_below(k, y),
    ensures
        accepts(f, pair_word(k, x, y)) == (msd_value(k, x) == msd_value(k, y)),
{
    lemma_equality_run(f, k, x, y);
}

/// A symbol below `k * k` is the pair of its two digits.
proof fn lemma_pair_decompose(k: int, sym: int) -> (xy: (int, int))
    requires
        k >= 1,
        0 <= sym < k * k,
    ensures
        0 <= xy.0 < k,
        0 <= xy.1 < k,
        pair_symbol(k, xy.0, xy.1) == sym,
{
    let y = sym / k;
    let x = sym % k;
    vstd::arithmetic::div_mod::lemma_fundamental_div_mod(sym, k);
    vstd::arithmetic::div_mod::lemma_mod_bound(sym, k);
    vstd::arithmetic::div_mod::lemma_div_pos_is_pos(sym, k);
    assert(y < k) by (nonlinear_arith)
        requires
            sym == k * y + x,
            0 <= x,
            sym < k * k,
            k >= 1,
    ;
    assert(pair_symbol(k, x, y) == sym) by (nonlinear_arith)
        requires
            sym == k * y + x,
    ;
    (x, y)
}

/// Every transition of the two comparison tables has a destination.
proof fn lemma_tables_have_destinations(ns: &NumberSystem, k: int)
    requires
        plain_msd_tables(ns, k),
    ensures
        has_destinations(&ns.less_than.fa),
        has_destinations(&ns.equality.fa),
{
    let f = ns.less_than.fa;
    assert(k * k <= i32::MAX) by {
        lemma_pair_symbol_bound(k, 0, 0);
    }
    assert forall|p: int, sym: i32| 0 <= p < f.q && #[trigger] f.row(p).contains_key(sym) implies f.dests(p, sym).len() > 0 by {
        if p == 0 {
            assert(f.d@[0]@.contains_key(sym));
        } else {
            assert(f.d@[1]@.contains_key(sym));
        }
        let (x, y) = lemma_pair_decompose(k, sym as int);
        assert(pair_symbol(k, x, y) as i32 == sym);
    }
    let g = ns.equality.fa;
    assert forall|p: int, sym: i32| 0 <= p < g.q && #[trigger] g.row(p).contains_key(sym) implies g.dests(p, sym).len() > 0 by {
        assert(g.d@[0]@.contains_key(sym));
        let (x, y) = lemma_pair_decompose(k, sym as int);
        assert(pair_symbol(k, x, y) as i32 == sym);
        assert(x == y);
        assert(g.d@[0]@[pair_symbol(k, x, x) as i32]@ == seq![0usize]);
    }
}

/// Reading two equally long digit words in the equality table stays in its state
/// exactly while they agree digit by digit.
proof fn lemma_equality_run_digits(f: &Fa, k: int, x: Seq<int>, y: Seq<int>)
    requires
        2 <= k <= 46340,
        is_equality_table(f, k),
        x.len() == y.len(),
        crate::numsys::digits_below(k, x),
        crate::numsys::digits_below(k, y),
    ensures
        run_from(f, 0, pair_word(k, x, y)) == if x == y {
            Some(0int)
        } else {
            None::<int>
        },
    decreases x.len(),
{
    let w = pair_word(k, x, y);
    if x.len() == 0 {
        assert(x =~= y);
    } else {
        let x0 = x.drop_last();
        let y0 = y.drop_last();
        assert(crate::numsys::digits_below(k, x0)) by {
            assert forall|t: int| 0 <= t < x0.len() implies 0 <= #[trigger] x0[t] < k by {
                assert(x0[t] == x[t]);
            }
        }
        assert(crate::numsys::digits_below(k, y0)) by {
            assert forall|t: int| 0 <= t < y0.len() implies 0 <= #[trigger] y0[t] < k by {
                assert(y0[t] == y[t]);
            }
        }
        lemma_equality_run_digits(f, k, x0, y0);
        assert(w.drop_last() =~= pair_word(k, x0, y0));
        let last = x.len() - 1;
        let dx = x[last];
        let dy = y[last];
        let sym = pair_symbol(k, dx, dy) as i32;
        assert(w.last() == sym);
        assert(f.d@[0]@.contains_key(sym) <==> dx == dy);
        if dx == dy {
            assert(f.d@[0]@[pair_symbol(k, dx, dx) as i32]@ == seq![0usize]);
        }
        if x0 == y0 && dx == dy {
            assert(x =~= x0.push(dx));
            assert(y =~= y0.push(dy));
        }
        if x == y {
            assert(x0 =~= y0);
        }
    }
}

/// The number system reads base-`k` numbers least significant digit first: its
/// less-than automaton accepts the reversals of the lexicographic table's words and its
/// equality automaton is the diagonal one, on `k` digits.
pub open spec fn plain_lsd_tables(ns: &NumberSystem, k: int) -> bool {
    &&& 2 <= k <= 46340
    &&& less_than_law(&ns.less_than.fa, k, false)
    &&& is_equality_table(&ns.equality.fa, k)
}

/// Reversing the paired word pairs the reversed digit words.
proof fn lemma_pair_word_reverse(k: int, x: Seq<int>, y: Seq<int>)
    requires
        x.len() == y.len(),
    ensures
        pair_word(k, x, y).reverse() == pair_word(k, x.reverse(), y.reverse()),
{
    assert(pair_word(k, x, y).reverse() =~= pair_word(k, x.reverse(), y.reverse()));
}

proof fn lemma_digits_below_reverse(k: int, x: Seq<int>)
    requires
        crate::numsys::digits_below(k, x),
    ensures
        crate::numsys::digits_below(k, x.reverse()),
{
    assert forall|t: int| 0 <= t < x.reverse().len() implies 0 <= #[trigger] x.reverse()[t] < k by {
        assert(x.reverse()[t] == x[x.len() - 1 - t]);
    }
}

/// The least-significant-first less-than automaton accepts the pair of two equally long
/// numbers, digits least significant first, exactly when the first is smaller.
pub proof fn law_lsd_table_compares(f: &Fa, k: int, x: Seq<int>, y: Seq<int>)
    requires
        2 <= k <= 46340,
        less_than_law(f, k, false),
        x.len() == y.len(),
        crate::numsys::digits_below(k, x),
        crate::numsys::digits_below(k, y),
    ensures
        accepts(f, pair_word(k, x, y)) == (msd_value(k, x.reverse()) < msd_value(k, y.reverse())),
{
    let g = choose|g: Fa| #[trigger]
        is_lex_less_than(&g, k) && forall|w: Seq<i32>|
            over_alphabet(w, k * k) ==> (#[trigger] accepts(f, w) <==> accepts(&g, w.reverse()));
    lemma_pair_word_over(k, x, y);
    lemma_pair_word_reverse(k, x, y);
    lemma_digits_below_reverse(k, x);
    lemma_digits_below_reverse(k, y);
    law_lex_table_compares(&g, k, x.reverse(), y.reverse());
    assert(accepts(f, pair_word(k, x, y)) <==> accepts(&g, pair_word(k, x, y).reverse()));
}

/// The equality table accepts the pair of two equally long numbers, read in either
/// direction, exactly when they are equal.
pub proof fn law_equality_table_compares_both_ways(f: &Fa, k: int, x: Seq<int>, y: Seq<int>)
    requires
        2 <= k <= 46340,
        is_equality_table(f, k),
        x.len() == y.len(),
        crate::numsys::digits_below(k, x),
        crate::numsys::digits_below(k, y),
    ensures
        accepts(f, pair_word(k, x, y)) == (x == y),
        accepts(f, pair_word(k, x, y)) == (msd_value(k, x) == msd_value(k, y)),
        accepts(f, pair_word(k, x, y)) == (msd_value(k, x.reverse()) == msd_value(k, y.reverse())),
{
    lemma_equality_run_digits(f, k, x, y);
    lemma_equality_run(f, k, x, y);
    lemma_digits_below_reverse(k, x);
    lemma_digits_below_reverse(k, y);
    lemma_equality_run_digits(f, k, x.reverse(), y.reverse());
    lemma_equality_run(f, k, x.reverse(), y.reverse());
    if x.reverse() == y.reverse() {
        assert(x =~= x.reverse().reverse());
        assert(y =~= y.reverse().reverse());
    }
}

/// Every transition of the equality table has a destination.
proof fn lemma_equality_has_destinations(g: &Fa, k: int)
    requires
        2 <= k <= 46340,
        is_equality_table(g, k),
    ensures
        has_destinations(g),
{
    assert(k * k <= i32::MAX) by {
        lemma_pair_symbol_bound(k, 0, 0);
    }
    assert forall|p: int, sym: i32| 0 <= p < g.q && #[trigger] g.row(p).contains_key(sym) implies g.dests(p, sym).len() > 0 by {
        assert(g.d@[0]@.contains_key(sym));
        let (x, y) = lemma_pair_decompose(k, sym as int);
        assert(pair_symbol(k, x, y) as i32 == sym);
        assert(x == y);
        assert(g.d@[0]@[pair_symbol(k, x, x) as i32]@ == seq![0usize]);
    }
}

/// A number system built for a plain base `k` read most significant digit first
/// compares base-`k` numbers through these tables.
pub proof fn law_new_msd_has_plain_tables(ns: &NumberSystem, k: int)
    requires
        2 <= k <= 46340,
        ns.is_msd,
        less_than_law(&ns.less_than.fa, k, ns.is_msd),
        is_equality_table(&ns.equality.fa, k),
    ensures
        plain_msd_tables(ns, k),
{
}

/// A number system built for a plain base `k` read least significant digit first
/// compares base-`k` numbers through these tables.
pub proof fn law_new_lsd_has_plain_tables(ns: &NumberSystem, k: int)
    requires
        2 <= k <= 46340,
        !ns.is_msd,
        less_than_law(&ns.less_than.fa, k, ns.is_msd),
        is_equality_table(&ns.equality.fa, k),
    ensures
        plain_lsd_tables(ns, k),
{
}

/// No custom-base files at all.
fn no_files() -> (r: CustomBaseFiles)
    ensures
        no_file(r.addition),
        no_file(r.less_than),
        no_file(r.all_representations),
{
    CustomBaseFiles {
        addition: CustomBaseCandidates { main: None, complement: None },
        less_than: CustomBaseCandidates { main: None, complement: None },
        all_representations: CustomBaseCandidates { main: None, complement: None },
    }
}

impl NumberSystem {
    /// Builds the number system `name` (`msd_k`, `lsd_k`, or a custom base) from its
    /// files, as far as they were found. The checks come in this order: a name without
    /// `_` is malformed; a negative base (`_neg_` in the name) is not supported; then
    /// the addition automaton and the less-than automaton are set up and checked. The
    /// equality automaton is built on the addition automaton's digits; the automaton of
    /// valid representations, when there is one, is kept with every track read in the
    /// system's direction.
    pub fn with_custom_base_files(name: &str, files: CustomBaseFiles) -> (r: Result<NumberSystem, NumSysError>)
        requires
            resolvable(files.addition),
            resolvable(files.less_than),
            resolvable(files.all_representations),
            digits_fit(files.addition),
            no_file(files.addition) && is_number_text(base_text(name@)) && digits_value(base_text(name@)) <= i32::MAX
                ==> digits_value(base_text(name@)) <= 1290,
        ensures
            first_underscore(name@) < 0 <==> r is Err && r->Err_0 is MalformedName,
            first_underscore(name@) < 0 ==> r->Err_0->MalformedName_0@ == name@,
            first_underscore(name@) >= 0 && has_infix(name@, "_neg_"@) ==> r is Err && r->Err_0 is UnsupportedNegativeBase
                && r->Err_0->UnsupportedNegativeBase_0@ == name@,
            first_underscore(name@) >= 0 && !has_infix(name@, "_neg_"@) && no_file(files.addition) && !is_number_text(
                base_text(name@),
            ) ==> r is Err && r->Err_0 is NotDefined && r->Err_0->NotDefined_0@ == name@,
            first_underscore(name@) >= 0 && !has_infix(name@, "_neg_"@) && no_file(files.addition) && no_file(
                files.less_than,
            ) && is_number_text(base_text(name@)) && 1 < digits_value(base_text(name@)) <= i32::MAX ==> r is Ok,
            first_underscore(name@) >= 0 && !has_infix(name@, "_neg_"@) ==> (r is Ok <==> addition_available(
                files.addition,
                name@,
            ) && less_than_available(files.less_than, addition_digits(files.addition, name@))),
            r is Ok ==> ({
                let ns = r->Ok_0;
                let digits = ns.addition.alphabet@[0]@;
                &&& ns.name@ == name@
                &&& ns.is_msd == (direction_text(name@) == "msd"@)
                &&& addition_tracks_ok(alphabet_view(ns.addition.alphabet@))
                &&& ns.addition.msd@ == seq![Some(ns.is_msd), Some(ns.is_msd), Some(ns.is_msd)]
                &&& files.addition.main matches Some(m) ==> ns.addition.fa == m.fa && ns.addition.alphabet == m.alphabet
                &&& no_file(files.addition) ==> {
                    let k = digits_value(base_text(name@));
                    &&& alphabet_view(ns.addition.alphabet@) == same_tracks(digits_below(k), 3)
                    &&& ns.is_msd ==> is_base_addition(&ns.addition.fa, k)
                    &&& !ns.is_msd ==> exists|f: Fa| #[trigger]
                        is_base_addition(&f, k) && forall|w: Seq<i32>|
                            over_alphabet(w, k * k * k) ==> (#[trigger] accepts(&ns.addition.fa, w) <==> accepts(
                                &f,
                                w.reverse(),
                            ))
                }
                &&& no_file(files.less_than) ==> less_than_law(&ns.less_than.fa, digits.len() as int, ns.is_msd)
                &&& ns.equality.msd@ == seq![Some(ns.is_msd), Some(ns.is_msd)]
                &&& is_equality_table(&ns.equality.fa, digits.len() as int)
                &&& less_than_tracks_ok(alphabet_view(ns.less_than.alphabet@), digits)
                &&& ns.less_than.msd@ == seq![Some(ns.is_msd), Some(ns.is_msd)]
                &&& files.less_than.main matches Some(m) ==> ns.less_than.fa == m.fa
                &&& alphabet_view(ns.equality.alphabet@) == same_tracks(digits, 2)
                &&& no_file(files.all_representations) ==> ns.all_representations is None
                &&& files.all_representations.main matches Some(m) ==> ns.all_representations is Some
                    && ns.all_representations->Some_0.fa == m.fa
            }),
    {
        let msd_or_lsd = match determine_msd_or_lsd(name) {
            Ok(d) => d,
            Err(e) => {
                return Err(e);
            },
        };
        let is_msd = same_text(msd_or_lsd, "msd");
        if contains_text(name, "_neg_") {
            return Err(NumSysError::UnsupportedNegativeBase(String::from_str(name)));
        }
        let base = determine_base(name);
        let loaded = files.addition.resolve();
        proof {
            if loaded is Some {
                assert(alphabet_view(loaded->Some_0.alphabet@) == candidate_tracks(files.addition));
            }
        }
        let addition = match set_addition_automaton(name, base, is_msd, loaded) {
            Ok(a) => a,
            Err(e) => {
                return Err(e);
            },
        };
        proof {
            assert(alphabet_view(addition.alphabet@)[0] == addition.alphabet@[0]@);
            assert(addition.alphabet@[0]@ == addition_digits(files.addition, name@));
        }
        let alphabet = copy_digits(&addition.alphabet[0]);
        let loaded_lt = files.less_than.resolve();
        proof {
            if loaded_lt is Some {
                assert(alphabet_view(loaded_lt->Some_0.alphabet@) == candidate_tracks(files.less_than));
            }
        }
        let less_than = match set_less_than_automaton(name, &alphabet, is_msd, loaded_lt) {
            Ok(l) => l,
            Err(e) => {
                return Err(e);
            },
        };
        let equality = equality_automaton(alphabet.as_slice(), is_msd);
        let all_representations = match files.all_representations.resolve() {
            None => None,
            Some(n) => {
                let mut msd: Vec<Option<bool>> = Vec::new();
                let mut i: usize = 0;
                while i < n.alphabet.len()
                    invariant
                        i <= n.alphabet@.len(),
                        msd@.len() == i,
                    decreases n.alphabet@.len() - i,
                {
                    msd.push(Some(is_msd));
                    i = i + 1;
                }
                let Automaton { fa, alphabet: tracks, label, msd: _, canonized, ns_name } = n;
                Some(Automaton { fa, alphabet: tracks, label, msd, canonized, ns_name })
            },
        };
        Ok(NumberSystem { name: String::from_str(name), is_msd, addition, less_than, equality, all_representations })
    }

    /// Builds the number system `name` with no custom-base files: a plain base `k`.
    pub fn new(name: &str) -> (r: Result<NumberSystem, NumSysError>)
        requires
            is_number_text(base_text(name@)) && digits_value(base_text(name@)) <= i32::MAX ==> digits_value(
                base_text(name@),
            ) <= 1290,
        ensures
            first_underscore(name@) < 0 <==> r is Err && r->Err_0 is MalformedName,
            first_underscore(name@) >= 0 && has_infix(name@, "_neg_"@) ==> r is Err && r->Err_0 is UnsupportedNegativeBase,
            first_underscore(name@) >= 0 && !has_infix(name@, "_neg_"@) ==> (r is Ok <==> is_number_text(base_text(name@))
                && 1 < digits_value(base_text(name@)) <= i32::MAX),
            first_underscore(name@) >= 0 && !has_infix(name@, "_neg_"@) && !is_number_text(base_text(name@)) ==> r is Err
                && r->Err_0 is NotDefined && r->Err_0->NotDefined_0@ == name@,
            r is Ok ==> ({
                let ns = r->Ok_0;
                let k = digits_value(base_text(name@));
                &&& ns.name@ == name@
                &&& ns.is_msd == (direction_text(name@) == "msd"@)
                &&& alphabet_view(ns.addition.alphabet@) == same_tracks(digits_below(k), 3)
                &&& ns.is_msd ==> is_base_addition(&ns.addition.fa, k)
                &&& !ns.is_msd ==> exists|f: Fa| #[trigger]
                    is_base_addition(&f, k) && forall|w: Seq<i32>|
                        over_alphabet(w, k * k * k) ==> (#[trigger] accepts(&ns.addition.fa, w) <==> accepts(
                            &f,
                            w.reverse(),
                        ))
                &&& less_than_law(&ns.less_than.fa, k, ns.is_msd)
                &&& ns.less_than.msd@ == seq![Some(ns.is_msd), Some(ns.is_msd)]
                &&& ns.equality.msd@ == seq![Some(ns.is_msd), Some(ns.is_msd)]
                &&& is_equality_table(&ns.equality.fa, k)
                &&& ns.all_representations is None
            }),
    {
        NumberSystem::with_custom_base_files(name, no_files())
    }

    /// The same base read in the other direction, from that name's custom-base files.
    pub fn flip_with_custom_base_files(&self, files: CustomBaseFiles) -> (r: Result<NumberSystem, NumSysError>)
        requires
            resolvable(files.addition),
            resolvable(files.less_than),
            resolvable(files.all_representations),
            digits_fit(files.addition),
            no_file(files.addition) && is_number_text(base_text(self.name@)) && digits_value(base_text(self.name@))
                <= i32::MAX ==> digits_value(base_text(self.name@)) <= 1290,
        ensures
            first_underscore(self.name@) < 0 ==> r is Err && r->Err_0 is MalformedName && r->Err_0->MalformedName_0@
                == self.name@,
            first_underscore(self.name@) >= 0 ==> {
                let flipped = crate::logicalops::flipped_name(self.name@);
                &&& has_infix(flipped, "_neg_"@) ==> r is Err && r->Err_0 is UnsupportedNegativeBase
                &&& !has_infix(flipped, "_neg_"@) ==> (r is Ok <==> addition_available(files.addition, flipped)
                    && less_than_available(files.less_than, addition_digits(files.addition, flipped)))
                &&& r is Ok ==> r->Ok_0.name@ == flipped && r->Ok_0.is_msd == (direction_text(self.name@) != "msd"@)
            },
    {
        match determine_msd_or_lsd(self.name.as_str()) {
            Err(e) => Err(e),
            Ok(_) => {
                let new_name = crate::logicalops::flipped_ns_name(self.name.as_str());
                proof {
                    crate::logicalops::lemma_flipped_name_parts(self.name@);
                    reveal_strlit("msd");
                    reveal_strlit("lsd");
                }
                NumberSystem::with_custom_base_files(new_name.as_str(), files)
            },
        }
    }

    /// The same base read in the other direction, with no custom-base files.
    pub fn flip(&self) -> (r: Result<NumberSystem, NumSysError>)
        requires
            is_number_text(base_text(self.name@)) && digits_value(base_text(self.name@)) <= i32::MAX ==> digits_value(
                base_text(self.name@),
            ) <= 1290,
        ensures
            first_underscore(self.name@) < 0 ==> r is Err && r->Err_0 is MalformedName,
            first_underscore(self.name@) >= 0 && !has_infix(crate::logicalops::flipped_name(self.name@), "_neg_"@) ==> (r is Ok
                <==> is_number_text(base_text(self.name@)) && 1 < digits_value(base_text(self.name@)) <= i32::MAX),
            r is Ok ==> r->Ok_0.name@ == crate::logicalops::flipped_name(self.name@) && r->Ok_0.is_msd == (direction_text(
                self.name@,
            ) != "msd"@),
    {
        proof {
            if first_underscore(self.name@) >= 0 {
                crate::logicalops::lemma_flipped_name_parts(self.name@);
            }
        }
        self.flip_with_custom_base_files(no_files())
    }

    /// The digits of the number system: those of the addition automaton's first track.
    pub fn get_alphabet(&self) -> (r: &[i32])
        requires
            self.addition.alphabet@.len() >= 1,
        ensures
            r@ == self.addition.alphabet@[0]@,
    {
        self.addition.alphabet[0].as_slice()
    }

    /// `msd_` or `lsd_`, by the reading direction.
    pub fn determine_base_name_underscore(&self) -> (r: &'static str)
        ensures
            r@ == if self.is_msd {
                "msd_"@
            } else {
                "lsd_"@
            },
    {
        if self.is_msd {
            "msd_"
        } else {
            "lsd_"
        }
    }

    /// The base of the number system's name as an integer greater than one.
    pub fn parse_base(&self) -> (r: Result<i32, NumSysError>)
        ensures
            r is Ok <==> is_number_text(base_text(self.name@)) && 1 < digits_value(base_text(self.name@)) <= i32::MAX,
            r is Ok ==> r->Ok_0 == digits_value(base_text(self.name@)),
    {
        crate::numsys::parse_base_of(self.name.as_str())
    }

    /// The addition automaton.
    pub fn addition(&self) -> (r: &Automaton)
        ensures
            *r == self.addition,
    {
        &self.addition
    }

    /// The less-than automaton.
    pub fn less_than(&self) -> (r: &Automaton)
        ensures
            *r == self.less_than,
    {
        &self.less_than
    }

    /// The automaton of `a op b` on two variables: the less-than automaton (for `<`,
    /// `>`, and complemented for `>=`, `<=`) or the equality automaton (for `=`, and
    /// complemented for `!=`), its two tracks labelled `a` and `b`, or `b` and `a` for
    /// `>` and `<=`. A trivial automaton complemented is the other trivial automaton.
    ///
    /// For a number system on plain base-`k` digits, read in either direction, the
    /// result accepts the pair of two equally long numbers, the one on the track labelled
    /// `a` and the other on the track labelled `b`, exactly when `a op b` holds of their
    /// values.
    pub fn comparison(&self, a: &str, b: &str, op: RelationalOp) -> (r: Automaton)
        requires
            a@ != b@,
            comparable(&self.less_than),
            comparable(&self.equality),
        ensures
            ({
                let base = comparison_base(self, op);
                let (first, second) = if comparison_swaps(op) {
                    (b@, a@)
                } else {
                    (a@, b@)
                };
                &&& !comparison_negates(op) || base.fa.true_false is None ==> {
                    &&& r.label@.len() == 2
                    &&& r.label@[0]@ == first
                    &&& r.label@[1]@ == second
                    &&& alphabet_view(r.alphabet@) == alphabet_view(base.alphabet@)
                    &&& r.msd@ == base.msd@
                }
                &&& !comparison_negates(op) ==> {
                    &&& r.fa.true_false == base.fa.true_false
                    &&& r.fa.q == base.fa.q
                    &&& r.fa.q0 == base.fa.q0
                    &&& r.fa.o@ == base.fa.o@
                    &&& r.fa.d@.len() == base.fa.d@.len()
                    &&& forall|x: int| 0 <= x < base.fa.d@.len() ==> #[trigger] r.fa.d@[x]@ == base.fa.d@[x]@
                }
                &&& comparison_negates(op) && base.fa.true_false is Some ==> r.fa.true_false == Some(
                    !base.fa.true_false->Some_0,
                )
                &&& comparison_negates(op) && base.fa.true_false is None && base.fa.q > 0 && has_destinations(&base.fa)
                    ==> forall|w: Seq<i32>|
                    over_alphabet(w, base.fa.alphabet_size as int) ==> (#[trigger] accepts(&r.fa, w) <==> !accepts(
                        &base.fa,
                        w,
                    ))
            }),
            forall|k: int| #[trigger] plain_msd_tables(self, k) ==> {
                &&& r.label@.len() == 2
                &&& (r.label@[0]@ == a@ && r.label@[1]@ == b@) || (r.label@[0]@ == b@ && r.label@[1]@ == a@)
                &&& forall|x: Seq<int>, y: Seq<int>|
                    x.len() == y.len() && crate::numsys::digits_below(k, x) && crate::numsys::digits_below(k, y)
                        ==> #[trigger] accepts(&r.fa, labelled_pair_word(r.label@, a@, k, x, y)) == relation_holds(
                        op,
                        msd_value(k, x),
                        msd_value(k, y),
                    )
            },
            forall|k: int| #[trigger] plain_lsd_tables(self, k) ==> {
                &&& r.label@.len() == 2
                &&& (r.label@[0]@ == a@ && r.label@[1]@ == b@) || (r.label@[0]@ == b@ && r.label@[1]@ == a@)
                &&& forall|x: Seq<int>, y: Seq<int>|
                    x.len() == y.len() && crate::numsys::digits_below(k, x) && crate::numsys::digits_below(k, y)
                        ==> #[trigger] accepts(&r.fa, labelled_pair_word(r.label@, a@, k, x, y)) == relation_holds(
                        op,
                        msd_value(k, x.reverse()),
                        msd_value(k, y.reverse()),
                    )
            },
    {
        let r = self.comparison_tables(a, b, op);
        proof {
            assert forall|k: int| #[trigger] plain_msd_tables(self, k) implies {
                &&& r.label@.len() == 2
                &&& (r.label@[0]@ == a@ && r.label@[1]@ == b@) || (r.label@[0]@ == b@ && r.label@[1]@ == a@)
                &&& forall|x: Seq<int>, y: Seq<int>|
                    x.len() == y.len() && crate::numsys::digits_below(k, x) && crate::numsys::digits_below(k, y)
                        ==> #[trigger] accepts(&r.fa, labelled_pair_word(r.label@, a@, k, x, y)) == relation_holds(
                        op,
                        msd_value(k, x),
                        msd_value(k, y),
                    )
            } by {
                self.lemma_comparison_reads_values(a@, b@, op, &r, k);
            }
            assert forall|k: int| #[trigger] plain_lsd_tables(self, k) implies {
                &&& r.label@.len() == 2
                &&& (r.label@[0]@ == a@ && r.label@[1]@ == b@) || (r.label@[0]@ == b@ && r.label@[1]@ == a@)
                &&& forall|x: Seq<int>, y: Seq<int>|
                    x.len() == y.len() && crate::numsys::digits_below(k, x) && crate::numsys::digits_below(k, y)
                        ==> #[trigger] accepts(&r.fa, labelled_pair_word(r.label@, a@, k, x, y)) == relation_holds(
                        op,
                        msd_value(k, x.reverse()),
                        msd_value(k, y.reverse()),
                    )
            } by {
                self.lemma_comparison_reads_lsd_values(a@, b@, op, &r, k);
            }
        }
        r
    }

    /// The comparison automaton, as its tables and track order give it.
    /// The comparison automaton of a number system with plain base-`k` tables accepts
    /// the labelled pair of two numbers exactly when the relation holds of them.
    proof fn lemma_comparison_reads_values(&self, a: Seq<char>, b: Seq<char>, op: RelationalOp, r: &Automaton, k: int)
        requires
            a != b,
            plain_msd_tables(self, k),
            comparable(&self.less_than),
            comparable(&self.equality),
            ({
                let base = comparison_base(self, op);
                let (first, second) = if comparison_swaps(op) {
                    (b, a)
                } else {
                    (a, b)
                };
                &&& !comparison_negates(op) || base.fa.true_false is None ==> {
                    &&& r.label@.len() == 2
                    &&& r.label@[0]@ == first
                    &&& r.label@[1]@ == second
                    &&& alphabet_view(r.alphabet@) == alphabet_view(base.alphabet@)
                    &&& r.msd@ == base.msd@
                }
                &&& !comparison_negates(op) ==> {
                    &&& r.fa.true_false == base.fa.true_false
                    &&& r.fa.q == base.fa.q
                    &&& r.fa.q0 == base.fa.q0
                    &&& r.fa.o@ == base.fa.o@
                    &&& r.fa.d@.len() == base.fa.d@.len()
                    &&& forall|x: int| 0 <= x < base.fa.d@.len() ==> #[trigger] r.fa.d@[x]@ == base.fa.d@[x]@
                }
                &&& comparison_negates(op) && base.fa.true_false is Some ==> r.fa.true_false == Some(
                    !base.fa.true_false->Some_0,
                )
                &&& comparison_negates(op) && base.fa.true_false is None && base.fa.q > 0 && has_destinations(&base.fa)
                    ==> forall|w: Seq<i32>|
                    over_alphabet(w, base.fa.alphabet_size as int) ==> (#[trigger] accepts(&r.fa, w) <==> !accepts(
                        &base.fa,
                        w,
                    ))
            }),
        ensures
            r.label@.len() == 2,
            (r.label@[0]@ == a && r.label@[1]@ == b) || (r.label@[0]@ == b && r.label@[1]@ == a),
            forall|x: Seq<int>, y: Seq<int>|
                x.len() == y.len() && crate::numsys::digits_below(k, x) && crate::numsys::digits_below(k, y)
                    ==> #[trigger] accepts(&r.fa, labelled_pair_word(r.label@, a, k, x, y)) == relation_holds(
                    op,
                    msd_value(k, x),
                    msd_value(k, y),
                ),
    {
        lemma_tables_have_destinations(self, k);
        let base = comparison_base(self, op);
        assert forall|x: Seq<int>, y: Seq<int>|
            x.len() == y.len() && crate::numsys::digits_below(k, x) && crate::numsys::digits_below(k, y)
                implies #[trigger] accepts(&r.fa, labelled_pair_word(r.label@, a, k, x, y)) == relation_holds(
                op,
                msd_value(k, x),
                msd_value(k, y),
            ) by {
            lemma_pair_word_over(k, x, y);
            lemma_pair_word_over(k, y, x);
            let wxy = pair_word(k, x, y);
            let wyx = pair_word(k, y, x);
            law_lex_table_compares(&self.less_than.fa, k, x, y);
            law_lex_table_compares(&self.less_than.fa, k, y, x);
            law_equality_table_compares(&self.equality.fa, k, x, y);
            law_equality_table_compares(&self.equality.fa, k, y, x);
            if comparison_negates(op) {
                assert(accepts(&r.fa, wxy) == !accepts(&base.fa, wxy));
                assert(accepts(&r.fa, wyx) == !accepts(&base.fa, wyx));
            } else {
                crate::fa::lemma_run_rows_same(&base.fa, &r.fa, base.fa.q0 as int, wxy);
                crate::fa::lemma_run_rows_same(&base.fa, &r.fa, base.fa.q0 as int, wyx);
            }
        }
    }

    /// The comparison automaton of a number system with plain base-`k` tables, read least
    /// significant digit first, accepts
    /// the labelled pair of two numbers exactly when the relation holds of them.
    proof fn lemma_comparison_reads_lsd_values(&self, a: Seq<char>, b: Seq<char>, op: RelationalOp, r: &Automaton, k: int)
        requires
            a != b,
            plain_lsd_tables(self, k),
            comparable(&self.less_than),
            comparable(&self.equality),
            ({
                let base = comparison_base(self, op);
                let (first, second) = if comparison_swaps(op) {
                    (b, a)
                } else {
                    (a, b)
                };
                &&& !comparison_negates(op) || base.fa.true_false is None ==> {
                    &&& r.label@.len() == 2
                    &&& r.label@[0]@ == first
                    &&& r.label@[1]@ == second
                    &&& alphabet_view(r.alphabet@) == alphabet_view(base.alphabet@)
                    &&& r.msd@ == base.msd@
                }
                &&& !comparison_negates(op) ==> {
                    &&& r.fa.true_false == base.fa.true_false
                    &&& r.fa.q == base.fa.q
                    &&& r.fa.q0 == base.fa.q0
                    &&& r.fa.o@ == base.fa.o@
                    &&& r.fa.d@.len() == base.fa.d@.len()
                    &&& forall|x: int| 0 <= x < base.fa.d@.len() ==> #[trigger] r.fa.d@[x]@ == base.fa.d@[x]@
                }
                &&& comparison_negates(op) && base.fa.true_false is Some ==> r.fa.true_false == Some(
                    !base.fa.true_false->Some_0,
                )
                &&& comparison_negates(op) && base.fa.true_false is None && base.fa.q > 0 && has_destinations(&base.fa)
                    ==> forall|w: Seq<i32>|
                    over_alphabet(w, base.fa.alphabet_size as int) ==> (#[trigger] accepts(&r.fa, w) <==> !accepts(
                        &base.fa,
                        w,
                    ))
            }),
        ensures
            r.label@.len() == 2,
            (r.label@[0]@ == a && r.label@[1]@ == b) || (r.label@[0]@ == b && r.label@[1]@ == a),
            forall|x: Seq<int>, y: Seq<int>|
                x.len() == y.len() && crate::numsys::digits_below(k, x) && crate::numsys::digits_below(k, y)
                    ==> #[trigger] accepts(&r.fa, labelled_pair_word(r.label@, a, k, x, y)) == relation_holds(
                    op,
                    msd_value(k, x.reverse()),
                    msd_value(k, y.reverse()),
                ),
    {
        let base = comparison_base(self, op);
        assert forall|x: Seq<int>, y: Seq<int>|
            x.len() == y.len() && crate::numsys::digits_below(k, x) && crate::numsys::digits_below(k, y)
                implies #[trigger] accepts(&r.fa, labelled_pair_word(r.label@, a, k, x, y)) == relation_holds(
                op,
                msd_value(k, x.reverse()),
                msd_value(k, y.reverse()),
            ) by {
            lemma_pair_word_over(k, x, y);
            lemma_pair_word_over(k, y, x);
            let wxy = pair_word(k, x, y);
            let wyx = pair_word(k, y, x);
            law_lsd_table_compares(&self.less_than.fa, k, x, y);
            law_lsd_table_compares(&self.less_than.fa, k, y, x);
            law_equality_table_compares_both_ways(&self.equality.fa, k, x, y);
            law_equality_table_compares_both_ways(&self.equality.fa, k, y, x);
            assert(has_destinations(&self.equality.fa)) by {
                lemma_equality_has_destinations(&self.equality.fa, k);
            }
            if comparison_negates(op) {
                assert(accepts(&r.fa, wxy) == !accepts(&base.fa, wxy));
                assert(accepts(&r.fa, wyx) == !accepts(&base.fa, wyx));
            } else {
                crate::fa::lemma_run_rows_same(&base.fa, &r.fa, base.fa.q0 as int, wxy);
                crate::fa::lemma_run_rows_same(&base.fa, &r.fa, base.fa.q0 as int, wyx);
            }
        }
    }

    fn comparison_tables(&self, a: &str, b: &str, op: RelationalOp) -> (r: Automaton)
        requires
            a@ != b@,
            comparable(&self.less_than),
            comparable(&self.equality),
        ensures
            ({
                let base = comparison_base(self, op);
                let (first, second) = if comparison_swaps(op) {
                    (b@, a@)
                } else {
                    (a@, b@)
                };
                &&& !comparison_negates(op) || base.fa.true_false is None ==> {
                    &&& r.label@.len() == 2
                    &&& r.label@[0]@ == first
                    &&& r.label@[1]@ == second
                    &&& alphabet_view(r.alphabet@) == alphabet_view(base.alphabet@)
                    &&& r.msd@ == base.msd@
                }
                &&& !comparison_negates(op) ==> {
                    &&& r.fa.true_false == base.fa.true_false
                    &&& r.fa.q == base.fa.q
                    &&& r.fa.q0 == base.fa.q0
                    &&& r.fa.o@ == base.fa.o@
                    &&& r.fa.d@.len() == base.fa.d@.len()
                    &&& forall|x: int| 0 <= x < base.fa.d@.len() ==> #[trigger] r.fa.d@[x]@ == base.fa.d@[x]@
                }
                &&& comparison_negates(op) && base.fa.true_false is Some ==> r.fa.true_false == Some(
                    !base.fa.true_false->Some_0,
                )
                &&& comparison_negates(op) && base.fa.true_false is None && base.fa.q > 0 && has_destinations(&base.fa)
                    ==> forall|w: Seq<i32>|
                    over_alphabet(w, base.fa.alphabet_size as int) ==> (#[trigger] accepts(&r.fa, w) <==> !accepts(
                        &base.fa,
                        w,
                    ))
            }),
    {
        let (base, swap, negate) = match op {
            RelationalOp::LessThan => (&self.less_than, false, false),
            RelationalOp::GreaterThan => (&self.less_than, true, false),
            RelationalOp::Equal => (&self.equality, false, false),
            RelationalOp::NotEqual => (&self.equality, false, true),
            RelationalOp::GreaterEqThan => (&self.less_than, false, true),
            RelationalOp::LessEqThan => (&self.less_than, true, true),
        };
        proof {
            assert(*base == comparison_base(self, op));
            assert(swap == comparison_swaps(op));
            assert(negate == comparison_negates(op));
        }
        let mut result = crate::leading_zeros::copy_automaton(base);
        let mut labels: Vec<String> = Vec::new();
        if swap {
            labels.push(String::from_str(b));
            labels.push(String::from_str(a));
        } else {
            labels.push(String::from_str(a));
            labels.push(String::from_str(b));
        }
        let ghost before = result;
        result.label = labels;
        proof {
            if base.fa.true_false is None {
                crate::quotient::lemma_copy_keeps(&base.fa, &result.fa);
            }
        }
        if negate {
            let ghost rg = result;
            let n = crate::logicalops::not(result);
            proof {
                if base.fa.true_false is None && base.fa.q > 0 && has_destinations(&base.fa) {
                    assert(has_destinations(&rg.fa)) by {
                        assert forall|p: int, sym: i32| 0 <= p < rg.fa.q && #[trigger] rg.fa.row(p).contains_key(sym) implies rg.fa.dests(p, sym).len() > 0 by {
                            assert(rg.fa.d@[p]@ == base.fa.d@[p]@);
                            assert(base.fa.row(p).contains_key(sym));
                        }
                    }
                    assert forall|w: Seq<i32>| over_alphabet(w, base.fa.alphabet_size as int) implies (#[trigger] accepts(&n.fa, w)
                        <==> !accepts(&base.fa, w)) by {
                        crate::fa::lemma_run_rows_same(&base.fa, &rg.fa, base.fa.q0 as int, w);
                    }
                }
            }
            n
        } else {
            result
        }
    }

    /// Whether digits are read most significant first.
    pub fn is_msd(&self) -> (r: bool)
        ensures
            r == self.is_msd,
    {
        self.is_msd
    }

    /// The name of the number system.
    pub fn name(&self) -> (r: &str)
        ensures
            r@ == self.name@,
    {
        self.name.as_str()
    }

    /// The automaton of the valid representations, when the base has one.
    pub fn all_representations(&self) -> (r: Option<&Automaton>)
        ensures
            r is None <==> self.all_representations is None,
            r is Some ==> *r->Some_0 == self.all_representations->Some_0,
    {
        match &self.all_representations {
            Some(a) => Some(a),
            None => None,
        }
    }

    /// Whether the base restricts its valid representations by an automaton.
    pub fn use_all_representations(&self) -> (r: bool)
        ensures
            r == self.all_representations is Some,
    {
        self.all_representations.is_some()
    }
}

} // verus!
