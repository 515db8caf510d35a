//! The addition automaton of a number system: the one a custom base supplies, or the
//! one built for a plain base `k`, checked to be over three tracks of the same digits,
//! `0` and `1` among them.

use crate::automaton::{alphabet_view, Automaton};
use crate::fa::{accepts, Fa};
use crate::logicalops::{over_alphabet, reversal_of, reverse};
use crate::numsys::{
    addition_entries, addition_entry, base_n_addition_automaton, digits_value, is_number, is_number_text,
    lexicographic_less_than, pair_symbol, same_tracks, triple_symbol, NumSysError,
};
use vstd::arithmetic::div_mod::{lemma_div_pos_is_pos, lemma_fundamental_div_mod, lemma_mod_bound};
use vstd::prelude::*;

verus! {

/// `f` is the automaton that `base_n_addition_automaton` builds for base `n`: two
/// states, the start state accepting, and on each digit triple the carry transitions.
pub open spec fn is_base_addition(f: &Fa, n: int) -> bool {
    &&& f.true_false is None
    &&& f.q == 2
    &&& f.q0 == 0
    &&& f.o@ == seq![1i32, 0]
    &&& f.alphabet_size == n * n * n
    &&& f.d@.len() == 2
    &&& forall|s: int, sym: i32| 0 <= s < 2 && #[trigger] f.row(s).contains_key(sym) ==> 0 <= sym < n * n * n
    &&& forall|i: int, j: int, k: int| 0 <= i < n && 0 <= j < n && 0 <= k < n ==> #[trigger] addition_entries(f, n, i, j, k)
}

/// The tracks of an addition automaton are three, with the same digits, `0` and `1`
/// among them.
pub open spec fn addition_tracks_ok(alph: Seq<Seq<i32>>) -> bool {
    &&& alph.len() == 3
    &&& alph[0].contains(0)
    &&& alph[0].contains(1)
    &&& alph[1].to_set() == alph[0].to_set()
    &&& alph[2].to_set() == alph[0].to_set()
}

/// The digits `0..k`.
pub open spec fn digits_below(k: int) -> Seq<i32> {
    Seq::new(k as nat, |d: int| d as i32)
}

/// Whether `v` holds `x`.
fn has_digit(v: &Vec<i32>, x: i32) -> (r: bool)
    ensures
        r == v@.contains(x),
{
    let mut i: usize = 0;
    while i < v.len()
        invariant
            i <= v@.len(),
            forall|j: int| 0 <= j < i ==> v@[j] != x,
        decreases v@.len() - i,
    {
        if v[i] == x {
            assert(v@[i as int] == x);
            return true;
        }
        i = i + 1;
    }
    false
}

/// Whether `a` and `b` hold the same digits, counted as sets.
fn same_digit_set(a: &Vec<i32>, b: &Vec<i32>) -> (r: bool)
    ensures
        r == (a@.to_set() == b@.to_set()),
{
    let mut i: usize = 0;
    while i < a.len()
        invariant
            i <= a@.len(),
            forall|j: int| 0 <= j < i ==> b@.contains(#[trigger] a@[j]),
        decreases a@.len() - i,
    {
        if !has_digit(b, a[i]) {
            proof {
                assert(a@.to_set().contains(a@[i as int]));
                assert(!b@.to_set().contains(a@[i as int]));
            }
            return false;
        }
        i = i + 1;
    }
    let mut i: usize = 0;
    while i < b.len()
        invariant
            i <= b@.len(),
            forall|j: int| 0 <= j < a@.len() ==> b@.contains(#[trigger] a@[j]),
            forall|j: int| 0 <= j < i ==> a@.contains(#[trigger] b@[j]),
        decreases b@.len() - i,
    {
        if !has_digit(a, b[i]) {
            proof {
                assert(b@.to_set().contains(b@[i as int]));
                assert(!a@.to_set().contains(b@[i as int]));
            }
            return false;
        }
        i = i + 1;
    }
    proof {
        assert forall|x: i32| #[trigger] a@.to_set().contains(x) == b@.to_set().contains(x) by {
            if a@.contains(x) {
                let j = choose|j: int| 0 <= j < a@.len() && a@[j] == x;
                assert(b@.contains(a@[j]));
            }
            if b@.contains(x) {
                let j = choose|j: int| 0 <= j < b@.len() && b@[j] == x;
                assert(a@.contains(b@[j]));
            }
        }
        assert(a@.to_set() =~= b@.to_set());
    }
    true
}

/// The value of a decimal numeral, when it fits in an `i32`.
fn parse_decimal(s: &str) -> (r: Option<i32>)
    requires
        is_number_text(s@),
    ensures
        r is Some <==> digits_value(s@) <= i32::MAX,
        r is Some ==> r->Some_0 == digits_value(s@),
{
    let ghost b = s@;
    let n = s.unicode_len();
    let mut v: i64 = 0;
    let mut i: usize = 0;
    while i < n
        invariant
            n == b.len(),
            b == s@,
            is_number_text(b),
            i <= n,
            v == digits_value(b.take(i as int)),
            0 <= v <= i32::MAX,
        decreases n - i,
    {
        let c = s.get_char(i);
        let d = (c as u32 - '0' as u32) as i64;
        proof {
            assert(b.take(i + 1).drop_last() =~= b.take(i as int));
            assert('0' <= b[i as int] <= '9');
        }
        v = v * 10 + d;
        proof {
            assert(b.take(i + 1).last() == b[i as int]);
            assert(v == digits_value(b.take(i + 1)));
        }
        if v > i32::MAX as i64 {
            proof {
                crate::numsys::lemma_digits_value_grows(b, i + 1);
            }
            return None;
        }
        i = i + 1;
    }
    proof {
        assert(b.take(n as int) =~= b);
    }
    Some(v as i32)
}

/// Checks the tracks of an addition automaton, in this order: three of them, `0` among
/// the first track's digits, `1` among them, and the other two tracks with the same
/// digits as the first. On success every track is set to the reading direction `is_msd`.
pub fn validate_addition(name: &str, addition: Automaton, is_msd: bool) -> (r: Result<Automaton, NumSysError>)
    ensures
        ({
            let alph = alphabet_view(addition.alphabet@);
            &&& alph.len() != 3 ==> r is Err && r->Err_0 is AdditionInputCount && r->Err_0->AdditionInputCount_0@
                == name@
            &&& alph.len() == 3 && !alph[0].contains(0) ==> r is Err && r->Err_0 is AdditionAlphabetMissingZero
                && r->Err_0->AdditionAlphabetMissingZero_0@ == name@
            &&& alph.len() == 3 && alph[0].contains(0) && !alph[0].contains(1) ==> r is Err
                && r->Err_0 is AdditionAlphabetMissingOne && r->Err_0->AdditionAlphabetMissingOne_0@ == name@
            &&& alph.len() == 3 && alph[0].contains(0) && alph[0].contains(1) && !addition_tracks_ok(alph) ==> r is Err
                && r->Err_0 is AdditionAlphabetsDiffer && r->Err_0->AdditionAlphabetsDiffer_0@ == name@
            &&& r is Ok <==> addition_tracks_ok(alph)
            &&& r is Ok ==> {
                &&& r->Ok_0.fa == addition.fa
                &&& r->Ok_0.alphabet == addition.alphabet
                &&& r->Ok_0.label == addition.label
                &&& r->Ok_0.canonized == addition.canonized
                &&& r->Ok_0.msd@ == seq![Some(is_msd), Some(is_msd), Some(is_msd)]
            }
        }),
{
    let ghost alph = alphabet_view(addition.alphabet@);
    if addition.alphabet.len() != 3 {
        return Err(NumSysError::AdditionInputCount(String::from_str(name)));
    }
    assert(alph[0] == addition.alphabet@[0]@);
    assert(alph[1] == addition.alphabet@[1]@);
    assert(alph[2] == addition.alphabet@[2]@);
    if !has_digit(&addition.alphabet[0], 0) {
        return Err(NumSysError::AdditionAlphabetMissingZero(String::from_str(name)));
    }
    if !has_digit(&addition.alphabet[0], 1) {
        return Err(NumSysError::AdditionAlphabetMissingOne(String::from_str(name)));
    }
    if !same_digit_set(&addition.alphabet[1], &addition.alphabet[0]) || !same_digit_set(
        &addition.alphabet[2],
        &addition.alphabet[0],
    ) {
        return Err(NumSysError::AdditionAlphabetsDiffer(String::from_str(name)));
    }
    let mut msd: Vec<Option<bool>> = Vec::new();
    msd.push(Some(is_msd));
    msd.push(Some(is_msd));
    msd.push(Some(is_msd));
    let Automaton { fa, alphabet, label, msd: _, canonized, ns_name } = addition;
    let r = Automaton { fa, alphabet, label, msd, canonized, ns_name };
    assert(r.msd@ =~= seq![Some(is_msd), Some(is_msd), Some(is_msd)]);
    Ok(r)
}

/// The addition automaton of the number system `name` with base text `base`: the one
/// `loaded` from a custom base's files, or else, for a numeric base `k > 1`, the one
/// built for base `k` (its language reversed when digits are read least significant
/// first). A base that is not a number, or is at most one, has no addition; one too
/// large for an `i32` is refused as such. The result's tracks are then checked by
/// [`validate_addition`].
pub fn set_addition_automaton(name: &str, base: &str, is_msd: bool, loaded: Option<Automaton>) -> (r: Result<
    Automaton,
    NumSysError,
>)
    requires
        loaded is None && is_number_text(base@) && digits_value(base@) <= i32::MAX ==> digits_value(base@) <= 1290,
    ensures
        r is Ok ==> addition_tracks_ok(alphabet_view(r->Ok_0.alphabet@)) && r->Ok_0.msd@ == seq![
            Some(is_msd),
            Some(is_msd),
            Some(is_msd),
        ],
        loaded is None && !is_number_text(base@) ==> r is Err && r->Err_0 is NotDefined && r->Err_0->NotDefined_0@
            == name@,
        loaded is None && is_number_text(base@) && digits_value(base@) > i32::MAX ==> r is Err
            && r->Err_0 is BaseNotAnI32 && r->Err_0->BaseNotAnI32_0@ == base@,
        loaded is None && is_number_text(base@) && digits_value(base@) <= 1 ==> r is Err && r->Err_0 is NotDefined
            && r->Err_0->NotDefined_0@ == name@,
        loaded is None && is_number_text(base@) && 1 < digits_value(base@) <= i32::MAX ==> ({
            let k = digits_value(base@);
            let a = r->Ok_0;
            &&& r is Ok
            &&& alphabet_view(a.alphabet@) == same_tracks(digits_below(k), 3)
            &&& a.msd@ == seq![Some(is_msd), Some(is_msd), Some(is_msd)]
            &&& is_msd ==> is_base_addition(&a.fa, k)
            &&& !is_msd ==> exists|f: Fa| #[trigger]
                is_base_addition(&f, k) && forall|w: Seq<i32>|
                    over_alphabet(w, k * k * k) ==> (#[trigger] accepts(&a.fa, w) <==> accepts(&f, w.reverse()))
        }),
        loaded matches Some(l) ==> ({
            let alph = alphabet_view(l.alphabet@);
            &&& alph.len() != 3 ==> r is Err && r->Err_0 is AdditionInputCount && r->Err_0->AdditionInputCount_0@
                == name@
            &&& alph.len() == 3 && !alph[0].contains(0) ==> r is Err && r->Err_0 is AdditionAlphabetMissingZero
                && r->Err_0->AdditionAlphabetMissingZero_0@ == name@
            &&& alph.len() == 3 && alph[0].contains(0) && !alph[0].contains(1) ==> r is Err
                && r->Err_0 is AdditionAlphabetMissingOne && r->Err_0->AdditionAlphabetMissingOne_0@ == name@
            &&& alph.len() == 3 && alph[0].contains(0) && alph[0].contains(1) && !addition_tracks_ok(alph) ==> r is Err
                && r->Err_0 is AdditionAlphabetsDiffer && r->Err_0->AdditionAlphabetsDiffer_0@ == name@
            &&& r is Ok <==> addition_tracks_ok(alph)
            &&& r is Ok ==> r->Ok_0.fa == l.fa && r->Ok_0.alphabet == l.alphabet && r->Ok_0.label == l.label
                && r->Ok_0.msd@ == seq![Some(is_msd), Some(is_msd), Some(is_msd)]
        }),
{
    let addition = match loaded {
        Some(l) => l,
        None => {
            if !is_number(base) {
                return Err(NumSysError::NotDefined(String::from_str(name)));
            }
            let k = match parse_decimal(base) {
                Some(k) => k,
                None => {
                    return Err(NumSysError::BaseNotAnI32(String::from_str(base)));
                },
            };
            if k <= 1 {
                return Err(NumSysError::NotDefined(String::from_str(name)));
            }
            let mut addition = base_n_addition_automaton(k, is_msd);
            let ghost f0 = addition.fa;
            let ghost a0 = addition;
            proof {
                assert(is_base_addition(&f0, k as int));
                assert forall|p: int, sym: i32, j: int|
                    #![trigger f0.dests(p, sym)[j]]
                    0 <= p < f0.q && f0.row(p).contains_key(sym) && 0 <= j < f0.dests(p, sym).len() implies f0.dests(p, sym)[j]
                    < f0.q by {
                    lemma_addition_dest(&f0, k as int, p, sym);
                }
                assert(f0.wf());
                assert((k as int) * (k as int) * (k as int) <= i32::MAX) by (nonlinear_arith)
                    requires
                        1 < k <= 1290,
                ;
            }
            if !is_msd {
                reverse(&mut addition, false);
                proof {
                    assert forall|p: int, sym: i32| 0 <= p < f0.d@.len() && #[trigger] f0.row(p).contains_key(sym) implies f0.dests(p, sym).len() <= 1 by {
                        lemma_addition_dest(&f0, k as int, p, sym);
                    }
                    assert(reversal_of(&a0, &addition, false));
                    assert(is_base_addition(&f0, k as int) && forall|w: Seq<i32>|
                        over_alphabet(w, k * k * k) ==> (#[trigger] accepts(&addition.fa, w) <==> accepts(&f0, w.reverse())));
                }
            }
            proof {
                let alph = alphabet_view(addition.alphabet@);
                let ds = digits_below(k as int);
                assert(alph == same_tracks(ds, 3));
                assert(alph[0] == ds);
                assert(ds[0] == 0);
                assert(ds[1] == 1);
                assert(alph[1] == ds);
                assert(alph[2] == ds);
                assert(addition_tracks_ok(alph));
            }
            addition
        },
    };
    validate_addition(name, addition, is_msd)
}

/// Every transition of the base addition automaton leads to one of its two states.
proof fn lemma_addition_dest(f: &Fa, n: int, p: int, sym: i32)
    requires
        is_base_addition(f, n),
        n >= 1,
        0 <= p < 2,
        f.row(p).contains_key(sym),
    ensures
        f.dests(p, sym).len() == 1,
        f.dests(p, sym)[0] < 2,
{
    let x = sym as int;
    assert(0 <= x < n * n * n);
    let q1 = x / n;
    let i = x % n;
    let j = q1 % n;
    let k = q1 / n;
    lemma_fundamental_div_mod(x, n);
    lemma_fundamental_div_mod(q1, n);
    lemma_mod_bound(x, n);
    lemma_mod_bound(q1, n);
    assert(q1 >= 0 && k >= 0) by {
        lemma_div_pos_is_pos(x, n);
        lemma_div_pos_is_pos(q1, n);
    }
    assert(x == i + n * j + n * n * k) by (nonlinear_arith)
        requires
            x == n * q1 + i,
            q1 == n * k + j,
    ;
    assert(k < n) by (nonlinear_arith)
        requires
            x == i + n * j + n * n * k,
            0 <= i,
            0 <= j,
            0 <= k,
            x < n * n * n,
            n >= 1,
    ;
    assert(triple_symbol(n, i, j, k) == x);
    assert(addition_entries(f, n, i, j, k));
    assert(addition_entry(f, n, p, i, j, k));
}

/// Checks a less-than automaton against the digits `alphabet` of the addition
/// automaton: two tracks, each with the same digits as `alphabet`, counted as sets. On
/// success both tracks are set to the reading direction `is_msd`.
pub fn validate_less_than(name: &str, alphabet: &Vec<i32>, less_than: Automaton, is_msd: bool) -> (r: Result<
    Automaton,
    NumSysError,
>)
    ensures
        ({
            let alph = alphabet_view(less_than.alphabet@);
            &&& alph.len() != 2 ==> r is Err && r->Err_0 is LessThanInputCount && r->Err_0->LessThanInputCount_0@
                == name@
            &&& alph.len() == 2 && !less_than_tracks_ok(alph, alphabet@) ==> r is Err
                && r->Err_0 is LessThanAlphabetMismatch && r->Err_0->LessThanAlphabetMismatch_0@ == name@
            &&& r is Ok <==> less_than_tracks_ok(alph, alphabet@)
            &&& r is Ok ==> {
                &&& r->Ok_0.fa == less_than.fa
                &&& r->Ok_0.alphabet == less_than.alphabet
                &&& r->Ok_0.label == less_than.label
                &&& r->Ok_0.canonized == less_than.canonized
                &&& r->Ok_0.msd@ == seq![Some(is_msd), Some(is_msd)]
            }
        }),
{
    let ghost alph = alphabet_view(less_than.alphabet@);
    if less_than.alphabet.len() != 2 {
        return Err(NumSysError::LessThanInputCount(String::from_str(name)));
    }
    assert(alph[0] == less_than.alphabet@[0]@);
    assert(alph[1] == less_than.alphabet@[1]@);
    if !same_digit_set(&less_than.alphabet[0], alphabet) || !same_digit_set(&less_than.alphabet[1], alphabet) {
        return Err(NumSysError::LessThanAlphabetMismatch(String::from_str(name)));
    }
    let mut msd: Vec<Option<bool>> = Vec::new();
    msd.push(Some(is_msd));
    msd.push(Some(is_msd));
    let Automaton { fa, alphabet: tracks, label, msd: _, canonized, ns_name } = less_than;
    let r = Automaton { fa, alphabet: tracks, label, msd, canonized, ns_name };
    assert(r.msd@ =~= seq![Some(is_msd), Some(is_msd)]);
    Ok(r)
}

/// The two tracks of a less-than automaton hold the digits of `alphabet`.
pub open spec fn less_than_tracks_ok(alph: Seq<Seq<i32>>, alphabet: Seq<i32>) -> bool {
    &&& alph.len() == 2
    &&& alph[0].to_set() == alphabet.to_set()
    &&& alph[1].to_set() == alphabet.to_set()
}

/// The less-than automaton of the number system `name` whose addition automaton has the
/// digits `alphabet`: the one `loaded` from a custom base's files, or else the
/// lexicographic order on `alphabet`'s digits (its language reversed when digits are
/// read least significant first). Its tracks are then checked by [`validate_less_than`].
pub fn set_less_than_automaton(name: &str, alphabet: &Vec<i32>, is_msd: bool, loaded: Option<Automaton>) -> (r: Result<
    Automaton,
    NumSysError,
>)
    requires
        loaded is None ==> alphabet@.len() <= 46340,
    ensures
        loaded is None ==> r is Ok && r->Ok_0.msd@ == seq![Some(is_msd), Some(is_msd)] && less_than_tracks_ok(
            alphabet_view(r->Ok_0.alphabet@),
            alphabet@,
        ),
        loaded is None ==> less_than_law(&r->Ok_0.fa, alphabet@.len() as int, is_msd),
        loaded matches Some(l) ==> ({
            let alph = alphabet_view(l.alphabet@);
            &&& alph.len() != 2 ==> r is Err && r->Err_0 is LessThanInputCount && r->Err_0->LessThanInputCount_0@
                == name@
            &&& alph.len() == 2 && !less_than_tracks_ok(alph, alphabet@) ==> r is Err
                && r->Err_0 is LessThanAlphabetMismatch && r->Err_0->LessThanAlphabetMismatch_0@ == name@
            &&& r is Ok <==> less_than_tracks_ok(alph, alphabet@)
            &&& r is Ok ==> r->Ok_0.fa == l.fa && r->Ok_0.alphabet == l.alphabet && r->Ok_0.label == l.label
                && r->Ok_0.msd@ == seq![Some(is_msd), Some(is_msd)]
        }),
{
    let less_than = match loaded {
        Some(l) => l,
        None => {
            let mut lt = lexicographic_less_than(alphabet.as_slice(), is_msd);
            proof {
                let f0 = lt.fa;
                assert forall|p: int, sym: i32, j: int|
                    #![trigger f0.dests(p, sym)[j]]
                    0 <= p < f0.q && f0.row(p).contains_key(sym) && 0 <= j < f0.dests(p, sym).len() implies f0.dests(p, sym)[j]
                    < f0.q by {
                    lemma_less_than_dest(&f0, alphabet@, p, sym);
                }
                assert(f0.wf());
                let n = alphabet@.len() as int;
                assert(n * n <= i32::MAX) by (nonlinear_arith)
                    requires
                        0 <= n <= 46340,
                ;
                let alph = alphabet_view(lt.alphabet@);
                assert(alph[0] == lt.alphabet@[0]@);
                assert(alph[1] == lt.alphabet@[1]@);
                alph[0].to_multiset_ensures();
                alphabet@.to_multiset_ensures();
                assert forall|x: i32| #[trigger] alph[0].to_set().contains(x) == alphabet@.to_set().contains(x) by {
                    assert(alph[0].to_multiset().count(x) == alphabet@.to_multiset().count(x));
                    assert(alph[0].contains(x) == (alph[0].to_multiset().count(x) > 0));
                    assert(alphabet@.contains(x) == (alphabet@.to_multiset().count(x) > 0));
                }
                assert(alph[0].to_set() =~= alphabet@.to_set());
            }
            let ghost lt0 = lt;
            proof {
                let f0 = lt0.fa;
                let n = alphabet@.len() as int;
                assert(is_lex_less_than(&f0, n));
                assert forall|p: int, sym: i32| 0 <= p < f0.d@.len() && #[trigger] f0.row(p).contains_key(sym) implies f0.dests(p, sym).len() <= 1 by {
                    lemma_less_than_dest(&f0, alphabet@, p, sym);
                }
            }
            if !is_msd {
                reverse(&mut lt, false);
                proof {
                    let n = alphabet@.len() as int;
                    assert(lt0.fa.alphabet_size == n * n);
                    assert forall|p: int, sym: i32| 0 <= p < lt.fa.q && #[trigger] lt.fa.row(p).contains_key(sym) implies lt.fa.dests(p, sym).len() > 0 by {
                    }
                    assert(is_lex_less_than(&lt0.fa, n) && forall|w: Seq<i32>|
                        over_alphabet(w, n * n) ==> (#[trigger] accepts(&lt.fa, w) <==> accepts(&lt0.fa, w.reverse())));
                }
            }
            lt
        },
    };
    validate_less_than(name, alphabet, less_than, is_msd)
}

/// `f` is the lexicographic less-than automaton on pairs of `n` digits: state `0` while
/// the two numbers agree, state `1` (accepting, looping on every pair) once the first is
/// smaller, and no transition once it is larger.
pub open spec fn is_lex_less_than(f: &Fa, n: int) -> bool {
    &&& f.true_false is None
    &&& f.q == 2
    &&& f.q0 == 0
    &&& f.o@ == seq![0i32, 1]
    &&& f.d@.len() == 2
    &&& f.alphabet_size == n * n
    &&& forall|sym: i32| #[trigger] f.d@[0]@.contains_key(sym) ==> 0 <= sym < n * n
    &&& forall|sym: i32| #[trigger] f.d@[1]@.contains_key(sym) <==> 0 <= sym < n * n
    &&& forall|x: int, y: int|
        0 <= x < n && 0 <= y < n ==> {
            let sym = #[trigger] pair_symbol(n, x, y) as i32;
            &&& f.d@[0]@.contains_key(sym) <==> x <= y
            &&& x == y ==> f.d@[0]@[sym]@ == seq![0usize]
            &&& x < y ==> f.d@[0]@[sym]@ == seq![1usize]
            &&& f.d@[1]@[sym]@ == seq![1usize]
        }
}

/// The less-than automaton on pairs of `n` digits read in the direction `is_msd`: the
/// lexicographic one when most significant digits come first, otherwise one that
/// accepts exactly the reversals of the lexicographic one's words.
pub open spec fn less_than_law(f: &Fa, n: int, is_msd: bool) -> bool {
    &&& is_msd ==> is_lex_less_than(f, n)
    &&& !is_msd ==> f.true_false is None && f.alphabet_size == n * n && crate::logicalops::has_destinations(f) && f.q > 0
        && f.q0 < f.q
    &&& !is_msd ==> exists|g: Fa| #[trigger]
        is_lex_less_than(&g, n) && forall|w: Seq<i32>|
            over_alphabet(w, n * n) ==> (#[trigger] accepts(f, w) <==> accepts(&g, w.reverse()))
}

/// `f` is the equality automaton on pairs of `n` digits: one accepting state that loops
/// on the pairs of equal digits and on nothing else.
pub open spec fn is_equality_table(f: &Fa, n: int) -> bool {
    &&& f.true_false is None
    &&& f.q == 1
    &&& f.q0 == 0
    &&& f.o@ == seq![1i32]
    &&& f.d@.len() == 1
    &&& f.alphabet_size == n * n
    &&& forall|x: int, y: int|
        0 <= x < n && 0 <= y < n ==> (#[trigger] f.d@[0]@.contains_key(pair_symbol(n, x, y) as i32) <==> x == y)
    &&& forall|x: int| 0 <= x < n ==> #[trigger] f.d@[0]@[pair_symbol(n, x, x) as i32]@ == seq![0usize]
    &&& forall|sym: i32| #[trigger] f.d@[0]@.contains_key(sym) ==> 0 <= sym < n * n
}

/// Every transition of the lexicographic less-than automaton leads to one of its two
/// states.
proof fn lemma_less_than_dest(f: &Fa, alphabet: Seq<i32>, p: int, sym: i32)
    requires
        f.q == 2,
        f.d@.len() == 2,
        forall|s: i32| #[trigger] f.d@[0]@.contains_key(s) ==> 0 <= s < alphabet.len() * alphabet.len(),
        forall|s: i32| #[trigger] f.d@[1]@.contains_key(s) <==> 0 <= s < alphabet.len() * alphabet.len(),
        forall|x: int, y: int|
            0 <= x < alphabet.len() && 0 <= y < alphabet.len() ==> {
                let s = #[trigger] pair_symbol(alphabet.len() as int, x, y) as i32;
                &&& f.d@[0]@.contains_key(s) <==> x <= y
                &&& x == y ==> f.d@[0]@[s]@ == seq![0usize]
                &&& x < y ==> f.d@[0]@[s]@ == seq![1usize]
                &&& f.d@[1]@[s]@ == seq![1usize]
            },
        0 <= p < 2,
        f.row(p).contains_key(sym),
    ensures
        f.dests(p, sym).len() == 1,
        f.dests(p, sym)[0] < 2,
{
    let n = alphabet.len() as int;
    let v = sym as int;
    if p == 0 {
        assert(f.d@[0]@.contains_key(sym));
    } else {
        assert(f.d@[1]@.contains_key(sym));
    }
    assert(0 <= v < n * n);
    assert(n > 0) by (nonlinear_arith)
        requires
            0 <= v < n * n,
            n >= 0,
    ;
    let y = v / n;
    let x = v % n;
    lemma_fundamental_div_mod(v, n);
    lemma_mod_bound(v, n);
    lemma_div_pos_is_pos(v, n);
    assert(y < n) by (nonlinear_arith)
        requires
            v == n * y + x,
            0 <= x,
            v < n * n,
            n > 0,
    ;
    assert(pair_symbol(n, x, y) == v);
    assert(pair_symbol(n, x, y) as i32 == sym);
}

} // verus!
