//! Which conversion between number systems is asked for: the bases of the source and the
//! target, and the common root that both are powers of.

use crate::automaton::Automaton;
use crate::logicalops::{ns_name, ns_name_text, parse_base, track_name, ConvertNsError};
use crate::numsys::{base_text, digits_value, is_number_text};
use vstd::arithmetic::power::pow;
use vstd::prelude::*;

verus! {

/// `x` is `r^i` for some `i >= 1`.
pub open spec fn is_power_of(x: int, r: int) -> bool {
    exists|i: nat| i >= 1 && #[trigger] pow(r, i) == x
}

/// `x` is `r^i` for some `i >= 0`.
pub open spec fn is_power_or_one(x: int, r: int) -> bool {
    x == 1 || is_power_of(x, r)
}

/// `r` is the smallest integer above one of which `a` and `b` are both powers.
pub open spec fn is_common_root(a: int, b: int, r: int) -> bool {
    &&& 2 <= r
    &&& is_power_of(a, r)
    &&& is_power_of(b, r)
    &&& forall|s: int| 2 <= s < r ==> !(#[trigger] is_power_of(a, s) && is_power_of(b, s))
}

/// Some integer above one has `a` and `b` both as powers.
pub open spec fn have_common_root(a: int, b: int) -> bool {
    exists|s: int| 2 <= s && #[trigger] is_power_of(a, s) && is_power_of(b, s)
}

proof fn lemma_power_step(x: int, r: int)
    requires
        x >= 1,
        r >= 2,
    ensures
        is_power_of(x, r) <==> x % r == 0 && is_power_or_one(x / r, r),
{
    reveal(pow);
    if is_power_of(x, r) {
        let i = choose|i: nat| i >= 1 && #[trigger] pow(r, i) == x;
        let j = (i - 1) as nat;
        assert(pow(r, i) == r * pow(r, j));
        vstd::arithmetic::div_mod::lemma_div_multiples_vanish(pow(r, j), r);
        vstd::arithmetic::div_mod::lemma_mod_multiples_basic(pow(r, j), r);
        assert(x / r == pow(r, j)) by {
            assert(r * pow(r, j) == pow(r, j) * r) by (nonlinear_arith);
        }
        assert(x % r == 0) by {
            assert(r * pow(r, j) == pow(r, j) * r) by (nonlinear_arith);
        }
        if j == 0 {
            assert(pow(r, 0) == 1);
        } else {
            assert(is_power_of(x / r, r));
        }
    }
    if x % r == 0 && is_power_or_one(x / r, r) {
        vstd::arithmetic::div_mod::lemma_fundamental_div_mod(x, r);
        let q = x / r;
        assert(x == r * q);
        if q == 1 {
            assert(pow(r, 1) == r * pow(r, 0));
            assert(pow(r, 1) == x);
        } else {
            let j = choose|j: nat| j >= 1 && #[trigger] pow(r, j) == q;
            assert(pow(r, j + 1) == r * pow(r, j));
            assert(pow(r, (j + 1) as nat) == x);
        }
    }
}

/// A power of `r` is at least `r`, and at least `r * r` unless it is `r` itself.
proof fn lemma_power_size(x: int, r: int)
    requires
        r >= 2,
        is_power_of(x, r),
    ensures
        x >= r,
        x != r ==> x >= r * r,
{
    let i = choose|i: nat| i >= 1 && #[trigger] pow(r, i) == x;
    vstd::arithmetic::power::lemma_pow_increases(r as nat, 1, i);
    vstd::arithmetic::power::lemma_pow1(r);
    if i >= 2 {
        vstd::arithmetic::power::lemma_pow_increases(r as nat, 2, i);
        reveal(pow);
        assert(pow(r, 2) == r * pow(r, 1));
    } else {
        assert(i == 1);
    }
}

/// Whether `x` is `r^i` for some `i >= 1`.
pub fn power_of(x: i32, r: i32) -> (res: bool)
    requires
        x >= 1,
        r >= 2,
    ensures
        res == is_power_of(x as int, r as int),
{
    proof {
        lemma_power_step(x as int, r as int);
    }
    if x % r != 0 {
        return false;
    }
    proof {
        vstd::arithmetic::div_mod::lemma_fundamental_div_mod(x as int, r as int);
        assert(x / r >= 1) by (nonlinear_arith)
            requires
                x == r * (x / r) + x % r,
                x % r == 0,
                x >= 1,
                r >= 2,
        ;
    }
    let mut v = x / r;
    while v > 1 && v % r == 0
        invariant
            r >= 2,
            v >= 1,
            is_power_of(x as int, r as int) == is_power_or_one(v as int, r as int),
        decreases v,
    {
        proof {
            lemma_power_step(v as int, r as int);
            vstd::arithmetic::div_mod::lemma_fundamental_div_mod(v as int, r as int);
            assert(v / r >= 1 && v / r < v) by (nonlinear_arith)
                requires
                    v == r * (v / r) + v % r,
                    v % r == 0,
                    v > 1,
                    r >= 2,
            ;
        }
        v = v / r;
    }
    proof {
        if v > 1 {
            lemma_power_step(v as int, r as int);
        }
    }
    v == 1
}

/// The smallest integer above one of which both bases are powers, if there is one.
pub fn common_root(a: i32, b: i32) -> (r: Option<i32>)
    requires
        a >= 2,
        b >= 2,
    ensures
        r matches Some(x) ==> is_common_root(a as int, b as int, x as int),
        r is None <==> !have_common_root(a as int, b as int),
{
    let m = if a < b {
        a
    } else {
        b
    };
    let mut s: i32 = 2;
    while s <= m / s
        invariant
            2 <= s,
            s <= m,
            (s - 1) * (s - 1) <= m,
            m == if a < b { a } else { b },
            a >= 2,
            b >= 2,
            forall|t: int| 2 <= t < s ==> !(#[trigger] is_power_of(a as int, t) && is_power_of(b as int, t)),
        decreases m - s,
    {
        if power_of(a, s) && power_of(b, s) {
            return Some(s);
        }
        proof {
            vstd::arithmetic::div_mod::lemma_fundamental_div_mod(m as int, s as int);
            vstd::arithmetic::div_mod::lemma_mod_bound(m as int, s as int);
            assert(s * s <= m) by (nonlinear_arith)
                requires
                    s <= m / s,
                    m == s * (m / s) + m % s,
                    m % s >= 0,
                    s >= 2,
            ;
            assert(s + 1 <= m) by (nonlinear_arith)
                requires
                    2 <= s,
                    s * s <= m,
            ;
        }
        s = s + 1;
    }
    // Above the square root, only the smaller base itself can be a common root.
    proof {
        vstd::arithmetic::div_mod::lemma_fundamental_div_mod(m as int, s as int);
        vstd::arithmetic::div_mod::lemma_mod_bound(m as int, s as int);
        assert(s * s > m) by (nonlinear_arith)
            requires
                s > m / s,
                m == s * (m / s) + m % s,
                m % s < s,
                s >= 2,
        ;
        assert forall|t: int| s <= t < m implies !(#[trigger] is_power_of(a as int, t) && is_power_of(b as int, t)) by {
            if is_power_of(a as int, t) && is_power_of(b as int, t) {
                lemma_power_size(m as int, t);
                assert(t * t > m) by (nonlinear_arith)
                    requires
                        t >= s,
                        s * s > m,
                        s >= 2,
                ;
            }
        }
    }
    if power_of(a, m) && power_of(b, m) {
        return Some(m);
    }
    proof {
        assert forall|t: int| 2 <= t implies !(#[trigger] is_power_of(a as int, t) && is_power_of(b as int, t)) by {
            if t > m && is_power_of(a as int, t) && is_power_of(b as int, t) {
                lemma_power_size(m as int, t);
            }
        }
    }
    None
}

/// The number-system name of the only track of `a`: the recorded one, or else `msd_k`
/// or `lsd_k` for the `k` digits of its alphabet.
pub open spec fn source_name(a: &Automaton) -> Seq<char> {
    match track_name(a.ns_name@, 0) {
        Some(n) => n,
        None => ns_name_text(a.msd@[0]->Some_0, a.alphabet@[0]@.len() as int),
    }
}

/// The automaton has exactly one track.
pub open spec fn single_track(a: &Automaton) -> bool {
    a.msd@.len() == 1 && a.alphabet@.len() == 1
}

/// Works out the conversion of the only track of `a` to the number system `to_base` in
/// the direction `to_msd`, checking in this order: one track, a number system on it, a
/// base in its name that is a number above one, fitting in an `i32`, a target that
/// differs from the source, and a common root of the two bases. On success it gives the
/// source base and the common root (the source base itself when only the direction
/// changes).
pub fn convert_ns_bases(a: &Automaton, to_msd: bool, to_base: i32) -> (r: Result<(i32, i32), ConvertNsError>)
    requires
        single_track(a) ==> a.alphabet@[0]@.len() <= i32::MAX,
    ensures
        !single_track(a) <==> r == Err::<(i32, i32), ConvertNsError>(ConvertNsError::NotSingleInput),
        single_track(a) ==> (a.msd@[0] is None <==> r == Err::<(i32, i32), ConvertNsError>(ConvertNsError::NoNumberSystem)),
        single_track(a) && a.msd@[0] is Some ==> ({
            let b = base_text(source_name(a));
            let from_msd = a.msd@[0]->Some_0;
            let fb = digits_value(b);
            &&& (!is_number_text(b) || fb <= 1) ==> r is Err && r->Err_0 is BaseNotAPositiveInt
                && r->Err_0->BaseNotAPositiveInt_found@ == b
            &&& is_number_text(b) && fb > i32::MAX ==> r is Err && r->Err_0 is BaseOverflowsInt
                && r->Err_0->BaseOverflowsInt_found@ == b
            &&& is_number_text(b) && 1 < fb <= i32::MAX ==> {
                &&& fb == to_base && from_msd == to_msd ==> r is Err && r->Err_0 is IdenticalNumberSystems
                    && r->Err_0->IdenticalNumberSystems_name@ == ns_name_text(from_msd, fb)
                &&& fb == to_base && from_msd != to_msd ==> r == Ok::<(i32, i32), ConvertNsError>((fb as i32, fb as i32))
                &&& fb != to_base && !have_common_root(fb, to_base as int) ==> r == Err::<(i32, i32), ConvertNsError>(
                    ConvertNsError::NoCommonRoot,
                )
                &&& fb != to_base && have_common_root(fb, to_base as int) ==> r is Ok && r->Ok_0.0 == fb
                    && is_common_root(fb, to_base as int, r->Ok_0.1 as int)
            }
        }),
{
    if a.msd.len() != 1 || a.alphabet.len() != 1 {
        return Err(ConvertNsError::NotSingleInput);
    }
    let from_msd = match a.msd[0] {
        Some(m) => m,
        None => {
            return Err(ConvertNsError::NoNumberSystem);
        },
    };
    let recorded: Option<&String> = if a.ns_name.len() > 0 {
        match &a.ns_name[0] {
            Some(n) => Some(n),
            None => None,
        }
    } else {
        None
    };
    let built: String;
    let from_name: &str = match recorded {
        Some(n) => n.as_str(),
        None => {
            built = ns_name(from_msd, a.alphabet[0].len() as i32);
            built.as_str()
        },
    };
    proof {
        assert(from_name@ == source_name(a));
    }
    let from_base = match parse_base(from_name) {
        Ok(b) => b,
        Err(e) => {
            return Err(e);
        },
    };
    if from_base == to_base {
        if from_msd == to_msd {
            return Err(ConvertNsError::IdenticalNumberSystems { name: ns_name(from_msd, from_base) });
        }
        return Ok((from_base, from_base));
    }
    if to_base < 2 {
        proof {
            assert forall|t: int| 2 <= t implies !(#[trigger] is_power_of(from_base as int, t) && is_power_of(
                to_base as int,
                t,
            )) by {
                if is_power_of(to_base as int, t) {
                    lemma_power_size(to_base as int, t);
                }
            }
        }
        return Err(ConvertNsError::NoCommonRoot);
    }
    match common_root(from_base, to_base) {
        Some(root) => Ok((from_base, root)),
        None => Err(ConvertNsError::NoCommonRoot),
    }
}

} // verus!
