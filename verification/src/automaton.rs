//! An automaton over tuples of digits: an [`Fa`] whose input symbols encode one digit
//! per track, together with each track's digit alphabet, its label and its reading
//! direction.

use crate::fa::Fa;
use vstd::prelude::*;

verus! {

/// An automaton whose symbols encode tuples of digits, one digit per track.
///
/// A tuple `(x_0, .., x_{k-1})` is encoded in mixed radix with track 0 varying fastest:
/// the position of `x_0` in `alphabet[0]`, plus `|alphabet[0]|` times the encoding of the
/// remaining tracks.
#[derive(Debug, Clone)]
pub struct Automaton {
    /// The transition structure.
    pub fa: Fa,
    /// The digits of each track, in the order that fixes their encoding.
    pub alphabet: Vec<Vec<i32>>,
    /// The variable name of each track.
    pub label: Vec<String>,
    /// Per track: `Some(true)` for most-significant-digit-first, `Some(false)` for
    /// least-significant-digit-first, `None` for a track without a number system.
    pub msd: Vec<Option<bool>>,
    /// Set when the state numbering must be kept exactly as it is.
    pub canonized: bool,
    /// Per track, the name of its number system where one was recorded (such as
    /// `msd_fib`); a track past the end, or with `None`, has none recorded.
    pub ns_name: Vec<Option<String>>,
}

/// The position of the first occurrence of `v` in `s`.
pub open spec fn first_index(s: Seq<i32>, v: i32) -> int
    decreases s.len(),
{
    if s.len() == 0 {
        0
    } else if s.last() == v && !s.drop_last().contains(v) {
        s.len() - 1
    } else {
        first_index(s.drop_last(), v)
    }
}

/// The encoding of the digits `t[i..]` on the tracks `alph[i..]`.
pub open spec fn encoding_from(alph: Seq<Seq<i32>>, t: Seq<i32>, i: int) -> int
    decreases alph.len() - i,
{
    if i < 0 || i >= alph.len() {
        0
    } else {
        first_index(alph[i], t[i]) + alph[i].len() * encoding_from(alph, t, i + 1)
    }
}

/// The product of the sizes of the tracks `alph[i..]`: the number of symbols.
pub open spec fn symbol_count_from(alph: Seq<Seq<i32>>, i: int) -> int
    decreases alph.len() - i,
{
    if i < 0 || i >= alph.len() {
        1
    } else {
        alph[i].len() * symbol_count_from(alph, i + 1)
    }
}

/// `n` zeros.
pub open spec fn zero_tuple(n: nat) -> Seq<i32> {
    Seq::new(n, |i: int| 0i32)
}

/// The view of the alphabet as sequences of digits.
pub open spec fn alphabet_view(alphabet: Seq<Vec<i32>>) -> Seq<Seq<i32>> {
    alphabet.map_values(|a: Vec<i32>| a@)
}

/// Every digit of `t` belongs to its track.
pub open spec fn tuple_in(alph: Seq<Seq<i32>>, t: Seq<i32>) -> bool {
    &&& t.len() == alph.len()
    &&& forall|i: int| 0 <= i < alph.len() ==> #[trigger] alph[i].contains(t[i])
}

proof fn lemma_first_index(s: Seq<i32>, v: i32)
    requires
        s.contains(v),
    ensures
        0 <= first_index(s, v) < s.len(),
        s[first_index(s, v)] == v,
        forall|j: int| 0 <= j < first_index(s, v) ==> s[j] != v,
    decreases s.len(),
{
    if s.last() == v && !s.drop_last().contains(v) {
        assert forall|j: int| 0 <= j < s.len() - 1 implies s[j] != v by {
            if s[j] == v {
                assert(s.drop_last()[j] == v);
            }
        }
    } else {
        if s.last() == v {
            assert(s.drop_last().contains(v));
        } else {
            let k = choose|k: int| 0 <= k < s.len() && s[k] == v;
            assert(s.drop_last()[k] == v);
        }
        lemma_first_index(s.drop_last(), v);
        let fi = first_index(s.drop_last(), v);
        assert(first_index(s, v) == fi);
        assert(s[fi] == s.drop_last()[fi]);
        assert forall|j: int| 0 <= j < fi implies s[j] != v by {
            assert(s[j] == s.drop_last()[j]);
        }
    }
}

pub(crate) proof fn lemma_encoding_bound(alph: Seq<Seq<i32>>, t: Seq<i32>, i: int)
    requires
        tuple_in(alph, t),
        0 <= i <= alph.len(),
    ensures
        0 <= encoding_from(alph, t, i) < symbol_count_from(alph, i),
    decreases alph.len() - i,
{
    if i < alph.len() {
        lemma_encoding_bound(alph, t, i + 1);
        assert(alph[i].contains(t[i]));
        lemma_first_index(alph[i], t[i]);
        let a = first_index(alph[i], t[i]);
        let e = encoding_from(alph, t, i + 1);
        let c = symbol_count_from(alph, i + 1);
        let n = alph[i].len() as int;
        assert(a + n * e < n * c) by (nonlinear_arith)
            requires
                0 <= a < n,
                0 <= e < c,
        ;
    }
}

impl Automaton {
    /// Assembles an automaton from its parts; its numbering is not fixed.
    pub fn new(fa: Fa, alphabet: Vec<Vec<i32>>, label: Vec<String>, msd: Vec<Option<bool>>) -> (r:
        Automaton)
        ensures
            r.fa == fa,
            r.alphabet == alphabet,
            r.label == label,
            r.msd == msd,
            !r.canonized,
            r.ns_name@.len() == 0,
    {
        Automaton { fa, alphabet, label, msd, canonized: false, ns_name: Vec::new() }
    }

    /// Records the number-system name of each track.
    pub fn set_ns_names(&mut self, names: Vec<Option<String>>)
        ensures
            final(self).ns_name == names,
            final(self).fa == old(self).fa,
            final(self).alphabet == old(self).alphabet,
            final(self).label == old(self).label,
            final(self).msd == old(self).msd,
            final(self).canonized == old(self).canonized,
    {
        self.ns_name = names;
    }

    /// The trivial automaton that accepts everything (`true`) or nothing (`false`): no
    /// states and no tracks.
    pub fn true_false(value: bool) -> (r: Automaton)
        ensures
            r.fa.true_false == Some(value),
            r.fa.q == 0,
            r.fa.q0 == 0,
            r.fa.alphabet_size == 0,
            r.fa.o@.len() == 0,
            r.fa.d@.len() == 0,
            r.alphabet@.len() == 0,
            r.label@.len() == 0,
            r.msd@.len() == 0,
            !r.canonized,
    {
        let fa = Fa { true_false: Some(value), q0: 0, q: 0, alphabet_size: 0, o: Vec::new(), d: Vec::new() };
        Automaton { fa, alphabet: Vec::new(), label: Vec::new(), msd: Vec::new(), canonized: false, ns_name: Vec::new() }
    }

    /// Sets whether the state numbering must be kept as it is.
    pub fn set_canonized(&mut self, canonized: bool)
        ensures
            final(self).canonized == canonized,
            final(self).ns_name == old(self).ns_name,
            final(self).fa == old(self).fa,
            final(self).alphabet == old(self).alphabet,
            final(self).label == old(self).label,
            final(self).msd == old(self).msd,
    {
        self.canonized = canonized;
    }

    /// Whether the state numbering must be kept as it is.
    pub fn is_canonized(&self) -> (r: bool)
        ensures
            r == self.canonized,
    {
        self.canonized
    }

    /// The symbol that encodes the digit tuple `t`.
    pub fn encode(&self, t: &Vec<i32>) -> (r: i32)
        requires
            tuple_in(alphabet_view(self.alphabet@), t@),
            symbol_count_from(alphabet_view(self.alphabet@), 0) <= i32::MAX,
        ensures
            r == encoding_from(alphabet_view(self.alphabet@), t@, 0),
    {
        let ghost alph = alphabet_view(self.alphabet@);
        let k = self.alphabet.len();
        let mut acc: i32 = 0;
        let mut i: usize = k;
        proof {
            lemma_encoding_bound(alph, t@, 0);
        }
        while i > 0
            invariant
                k == self.alphabet@.len(),
                alph == alphabet_view(self.alphabet@),
                tuple_in(alph, t@),
                symbol_count_from(alph, 0) <= i32::MAX,
                i <= k,
                acc == encoding_from(alph, t@, i as int),
            decreases i,
        {
            let j = i - 1;
            let track = &self.alphabet[j];
            let x = t[j];
            proof {
                assert(alph[j as int] == track@);
                assert(alph[j as int].contains(t@[j as int]));
                lemma_first_index(track@, x);
                lemma_encoding_bound(alph, t@, 0);
                lemma_encoding_bound(alph, t@, j as int);
                lemma_encoding_bound(alph, t@, i as int);
                lemma_count_mono(alph, 0, j as int);
                let c1 = symbol_count_from(alph, i as int);
                let nn = track@.len() as int;
                assert(symbol_count_from(alph, j as int) == nn * c1);
                assert(nn <= nn * c1) by (nonlinear_arith)
                    requires
                        1 <= c1,
                        0 <= nn,
                ;
            }
            let p = position(track, x);
            let n = track.len();
            proof {
                let e = encoding_from(alph, t@, i as int);
                assert(alph[j as int].len() == n);
                assert(t@[j as int] == x);
                assert(encoding_from(alph, t@, j as int) == first_index(alph[j as int], t@[j as int]) + alph[j as int].len() * encoding_from(alph, t@, j + 1));
                assert(encoding_from(alph, t@, j as int) == p + n * e);
                assert(p + n * e < i32::MAX + 1);
                assert(0 <= n * e) by (nonlinear_arith)
                    requires
                        0 <= n,
                        0 <= e,
                ;
            }
            acc = p + (n as i32) * acc;
            i = j;
        }
        acc
    }

    /// The symbol that encodes a zero on every track.
    pub fn determine_zero(&self) -> (r: i32)
        requires
            forall|i: int| 0 <= i < self.alphabet@.len() ==> #[trigger] self.alphabet@[i]@.contains(0),
            symbol_count_from(alphabet_view(self.alphabet@), 0) <= i32::MAX,
        ensures
            r == encoding_from(alphabet_view(self.alphabet@), zero_tuple(self.alphabet@.len()), 0),
    {
        let k = self.alphabet.len();
        let mut zeros: Vec<i32> = Vec::new();
        let mut i: usize = 0;
        while i < k
            invariant
                k == self.alphabet@.len(),
                i <= k,
                zeros@ == Seq::new(i as nat, |j: int| 0i32),
            decreases k - i,
        {
            zeros.push(0);
            i = i + 1;
        }
        proof {
            assert(zeros@ =~= zero_tuple(k as nat));
            let alph = alphabet_view(self.alphabet@);
            assert forall|j: int| 0 <= j < alph.len() implies #[trigger] alph[j].contains(zeros@[j]) by {
                assert(self.alphabet@[j]@.contains(0));
            }
        }
        self.encode(&zeros)
    }
}

/// Symbol counts only shrink as tracks are dropped from the front.
proof fn lemma_count_mono(alph: Seq<Seq<i32>>, i: int, j: int)
    requires
        0 <= i <= j <= alph.len(),
    ensures
        symbol_count_from(alph, j) <= symbol_count_from(alph, i) || symbol_count_from(alph, i) == 0,
        0 <= symbol_count_from(alph, j),
    decreases j - i,
{
    lemma_count_nonneg(alph, j);
    if i < j {
        lemma_count_mono(alph, i + 1, j);
        lemma_count_nonneg(alph, i + 1);
        let n = alph[i].len() as int;
        let c = symbol_count_from(alph, i + 1);
        assert(symbol_count_from(alph, i) == n * c);
        if n == 0 {
            assert(n * c == 0) by (nonlinear_arith)
                requires
                    n == 0,
            ;
        } else if c == 0 {
            assert(n * c == 0) by (nonlinear_arith)
                requires
                    c == 0,
            ;
        } else {
            assert(c <= n * c) by (nonlinear_arith)
                requires
                    1 <= n,
                    0 <= c,
            ;
        }
    }
}

proof fn lemma_count_nonneg(alph: Seq<Seq<i32>>, i: int)
    ensures
        0 <= symbol_count_from(alph, i),
    decreases alph.len() - i,
{
    if 0 <= i < alph.len() {
        lemma_count_nonneg(alph, i + 1);
        let n = alph[i].len() as int;
        let c = symbol_count_from(alph, i + 1);
        assert(0 <= n * c) by (nonlinear_arith)
            requires
                0 <= n,
                0 <= c,
        ;
    }
}

/// The position of the first occurrence of `x` in `v`.
fn position(v: &Vec<i32>, x: i32) -> (r: i32)
    requires
        v@.contains(x),
        v@.len() <= i32::MAX,
    ensures
        r == first_index(v@, x),
{
    proof {
        lemma_first_index(v@, x);
    }
    let mut i: usize = 0;
    while i < v.len()
        invariant
            i <= v@.len(),
            v@.len() <= i32::MAX,
            v@.contains(x),
            0 <= first_index(v@, x) < v@.len(),
            v@[first_index(v@, x)] == x,
            forall|j: int| 0 <= j < first_index(v@, x) ==> v@[j] != x,
            forall|j: int| 0 <= j < i ==> v@[j] != x,
        decreases v@.len() - i,
    {
        if v[i] == x {
            return i as i32;
        }
        i = i + 1;
    }
    0
}

} // verus!
