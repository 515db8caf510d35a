//! A morphism from a finite set of integer letters to integer words, e.g.
//! `0 -> [-3]0102[11], 1 -> 2113, 2 -> 314` (square brackets escape a value outside
//! `0..=9`): its uniform length, its range, its text form, the word automaton it
//! promotes to, and the predicates that describe where a value occurs in its images.

use crate::automaton::Automaton;
use crate::fa::Fa;
use crate::text::{decimal, push_decimal, push_signed, signed_decimal};
use std::collections::{BTreeMap, BTreeSet};
use vstd::prelude::*;
use vstd::std_specs::cmp::OrdSpec;
use vstd::std_specs::iter::IteratorSpec;
use vstd::string::*;

verus! {

broadcast use vstd::std_specs::btree::group_btree_axioms;

/// Why a morphism cannot be used where it was asked for.
#[derive(Debug, Clone, Copy, PartialEq, Eq)]
pub enum MorphismError {
    /// The images do not all have the same length.
    NotUniform,
    /// The images all have length zero.
    NotPositiveUniform,
    /// Some image holds a negative value.
    NegativeValue,
    /// Some image refers to a value that is not a letter of the domain.
    DomainDoesNotCoverImageRange,
    /// The longest image is shorter than two letters, so there is no number system
    /// `msd_<length>` to read the promoted automaton in; carries that length.
    NumberSystemNotDefined(usize),
}

/// The message that describes `e`.
pub open spec fn morphism_error_text(e: MorphismError) -> Seq<char> {
    match e {
        MorphismError::NotUniform => "A morphism applied to a word automaton must be uniform."@,
        MorphismError::NotPositiveUniform => "A morphism applied to a word automaton must have positive uniform length."@,
        MorphismError::NegativeValue => "Cannot promote a morphism with negative values."@,
        MorphismError::DomainDoesNotCoverImageRange => "morphism domain does not cover every value referenced in an image"@,
        MorphismError::NumberSystemNotDefined(k) => "Number system msd_"@ + decimal(k as nat) + " is not defined."@,
    }
}

impl MorphismError {
    /// The message that describes this error.
    pub fn message(&self) -> (r: String)
        ensures
            r@ == morphism_error_text(*self),
    {
        match self {
            MorphismError::NotUniform => String::from_str(
                "A morphism applied to a word automaton must be uniform.",
            ),
            MorphismError::NotPositiveUniform => String::from_str(
                "A morphism applied to a word automaton must have positive uniform length.",
            ),
            MorphismError::NegativeValue => String::from_str(
                "Cannot promote a morphism with negative values.",
            ),
            MorphismError::DomainDoesNotCoverImageRange => String::from_str(
                "morphism domain does not cover every value referenced in an image",
            ),
            MorphismError::NumberSystemNotDefined(k) => {
                let mut s = String::from_str("Number system msd_");
                push_decimal(&mut s, *k as u64);
                s.append(" is not defined.");
                s
            },
        }
    }
}

/// `ks` lists the elements of `dom` in increasing order.
pub open spec fn is_sorted_key_seq(ks: Seq<i32>, dom: Set<i32>) -> bool {
    &&& forall|x: i32| dom.contains(x) <==> ks.contains(x)
    &&& forall|a: int, b: int| 0 <= a < b < ks.len() ==> ks[a] < ks[b]
}

/// The letters of the domain of `m`, in increasing order.
pub open spec fn sorted_keys(m: Map<i32, Vec<i32>>) -> Seq<i32> {
    choose|ks: Seq<i32>| is_sorted_key_seq(ks, m.dom())
}

/// Every value that occurs in some image.
pub open spec fn image_values(m: Map<i32, Vec<i32>>) -> Set<i32> {
    Set::new(|y: i32| exists|k: i32| m.contains_key(k) && #[trigger] m[k]@.contains(y))
}

/// The common length of all images; `0` for an empty domain and `-1` when two images
/// differ in length.
pub open spec fn uniform_length(m: Map<i32, Vec<i32>>) -> int {
    if m.dom().len() == 0 {
        0
    } else if forall|a: i32, b: i32|
        m.contains_key(a) && m.contains_key(b) ==> #[trigger] m[a]@.len() == #[trigger] m[b]@.len() {
        m[choose|k: i32| m.contains_key(k)]@.len() as int
    } else {
        -1
    }
}

/// Two increasing sequences of the same elements are the same sequence.
proof fn lemma_sorted_unique(a: Seq<i32>, b: Seq<i32>, dom: Set<i32>)
    requires
        is_sorted_key_seq(a, dom),
        is_sorted_key_seq(b, dom),
    ensures
        a == b,
    decreases a.len(),
{
    if a.len() == 0 {
        if b.len() > 0 {
            assert(dom.contains(b[0]));
            assert(a.contains(b[0]));
        }
        assert(b.len() == 0);
        assert(a =~= b);
    } else {
        assert(dom.contains(a[0]));
        assert(b.contains(a[0]));
        assert(b.len() > 0);
        assert(a.contains(b[0]));
        let ia = choose|i: int| 0 <= i < a.len() && a[i] == b[0];
        let ib = choose|i: int| 0 <= i < b.len() && b[i] == a[0];
        if ia > 0 {
            assert(a[0] < a[ia]);
        }
        if ib > 0 {
            assert(b[0] < b[ib]);
        }
        assert(a[0] == b[0]);
        let d2 = dom.remove(a[0]);
        let a2 = a.drop_first();
        let b2 = b.drop_first();
        assert forall|x: i32| d2.contains(x) <==> a2.contains(x) by {
            if d2.contains(x) {
                let i = choose|i: int| 0 <= i < a.len() && a[i] == x;
                assert(i != 0);
                assert(a2[i - 1] == x);
            }
            if a2.contains(x) {
                let i = choose|i: int| 0 <= i < a2.len() && a2[i] == x;
                assert(a[i + 1] == x);
                assert(a[0] < a[i + 1]);
            }
        }
        assert forall|x: i32| d2.contains(x) <==> b2.contains(x) by {
            if d2.contains(x) {
                let i = choose|i: int| 0 <= i < b.len() && b[i] == x;
                assert(i != 0);
                assert(b2[i - 1] == x);
            }
            if b2.contains(x) {
                let i = choose|i: int| 0 <= i < b2.len() && b2[i] == x;
                assert(b[i + 1] == x);
                assert(b[0] < b[i + 1]);
            }
        }
        assert forall|i: int, j: int| 0 <= i < j < a2.len() implies a2[i] < a2[j] by {
            assert(a[i + 1] < a[j + 1]);
        }
        assert forall|i: int, j: int| 0 <= i < j < b2.len() implies b2[i] < b2[j] by {
            assert(b[i + 1] < b[j + 1]);
        }
        lemma_sorted_unique(a2, b2, d2);
        assert(a =~= b) by {
            assert forall|i: int| 0 <= i < a.len() implies a[i] == b[i] by {
                if i > 0 {
                    assert(a[i] == a2[i - 1]);
                    assert(b[i] == b2[i - 1]);
                }
            }
        }
    }
}

/// An increasing sequence of keys, in the order of `i32`.
proof fn lemma_increasing_keys(ks: Seq<&i32>)
    requires
        vstd::std_specs::btree::increasing_seq(ks),
    ensures
        forall|a: int, b: int| 0 <= a < b < ks.len() ==> *ks[a] < *ks[b],
{
    broadcast use vstd::laws_cmp::group_laws_cmp;
    assert(vstd::laws_cmp::obeys_cmp::<i32>());
    assert(vstd::laws_cmp::obeys_cmp::<&i32>());
    assert forall|a: int, b: int| 0 <= a < b < ks.len() implies *ks[a] < *ks[b] by {
        let x: &i32 = ks[a];
        let y: &i32 = ks[b];
        assert(OrdSpec::cmp_spec(&x, &y) is Less);
        assert(OrdSpec::cmp_spec(x, y) is Less);
    }
}

/// The letters of the domain of `m`, in increasing order.
fn sorted_key_list(m: &BTreeMap<i32, Vec<i32>>) -> (r: Vec<i32>)
    ensures
        r@ == sorted_keys(m@),
        is_sorted_key_seq(r@, m@.dom()),
{
    let keys = m.keys();
    let ghost ks = keys.remaining();
    proof {
        broadcast use vstd::std_specs::btree::axiom_spec_keys_iter;
        assert(ks.unref().to_set() == m@.dom());
        assert(vstd::std_specs::btree::increasing_seq(ks));
    }
    let mut out: Vec<i32> = Vec::new();
    for k in it: keys
        invariant
            it.seq() == ks,
            out@.len() == it.index(),
            forall|i: int| 0 <= i < it.index() ==> out@[i] == *ks[i],
    {
        out.push(*k);
    }
    proof {
        assert(out@.len() == ks.len());
        assert(out@ =~= ks.unref());
        lemma_increasing_keys(ks);
        assert forall|x: i32| m@.dom().contains(x) <==> out@.contains(x) by {
            assert(ks.unref().to_set().contains(x) <==> ks.unref().contains(x));
        }
        assert(is_sorted_key_seq(out@, m@.dom()));
        lemma_sorted_unique(out@, sorted_keys(m@), m@.dom());
    }
    out
}

/// A morphism: each domain letter's image, the image length shared by all letters
/// (`-1` when the lengths differ) and the values that occur in some image.
#[derive(Debug)]
pub struct Morphism {
    /// The common image length, `0` for an empty domain and `-1` when two images differ
    /// in length.
    pub length: i32,
    /// The image of each domain letter; iterated in increasing letter order.
    pub mapping: BTreeMap<i32, Vec<i32>>,
    /// The values that occur in some image.
    pub range: BTreeSet<i32>,
}

/// The letters of `ks` list the domain of `m` in increasing order.
proof fn lemma_keys_cover(ks: Seq<i32>, m: Map<i32, Vec<i32>>, k: i32) -> (i: int)
    requires
        is_sorted_key_seq(ks, m.dom()),
        m.contains_key(k),
    ensures
        0 <= i < ks.len(),
        ks[i] == k,
{
    assert(ks.contains(k));
    choose|i: int| 0 <= i < ks.len() && ks[i] == k
}

impl Morphism {
    /// The morphism with the given images: its range and uniform length are derived.
    pub fn from_mapping(mapping: BTreeMap<i32, Vec<i32>>) -> (r: Morphism)
        requires
            forall|k: i32| #[trigger] mapping@.contains_key(k) ==> mapping@[k]@.len() <= i32::MAX,
        ensures
            r.mapping@ == mapping@,
            r.range@ == image_values(mapping@),
            r.length == uniform_length(mapping@),
    {
        let keys = sorted_key_list(&mapping);
        let ghost m = mapping@;
        let ghost ks = keys@;
        let nk = keys.len();
        let mut range: BTreeSet<i32> = BTreeSet::new();
        let mut first_len: usize = 0;
        let mut uniform = true;
        let mut idx: usize = 0;
        while idx < nk
            invariant
                nk == ks.len(),
                ks == keys@,
                m == mapping@,
                is_sorted_key_seq(ks, m.dom()),
                idx <= nk,
                range@ == Set::new(|y: i32| exists|j: int| 0 <= j < idx && #[trigger] m[ks[j]]@.contains(y)),
                idx > 0 ==> first_len == m[ks[0]]@.len(),
                uniform <==> (forall|j: int| 0 <= j < idx ==> #[trigger] m[ks[j]]@.len() == first_len),
            decreases nk - idx,
        {
            let k = keys[idx];
            proof {
                assert(ks.contains(k));
            }
            let img = mapping.get(&k).unwrap();
            if idx == 0 {
                first_len = img.len();
            } else if img.len() != first_len {
                uniform = false;
            }
            let ghost r0 = range@;
            let mut p: usize = 0;
            while p < img.len()
                invariant
                    *img == m[ks[idx as int]],
                    p <= img@.len(),
                    range@ == r0.union(Set::new(|y: i32| exists|q: int| 0 <= q < p && img@[q] == y)),
                decreases img@.len() - p,
            {
                range.insert(img[p]);
                proof {
                    assert(range@ =~= r0.union(Set::new(|y: i32| exists|q: int| 0 <= q < p + 1 && img@[q] == y))) by {
                        assert forall|y: i32| Set::new(|y: i32| exists|q: int| 0 <= q < p + 1 && img@[q] == y).contains(y)
                            implies range@.contains(y) by {
                            let q = choose|q: int| 0 <= q < p + 1 && img@[q] == y;
                            if q < p {
                                assert(Set::new(|y: i32| exists|q: int| 0 <= q < p && img@[q] == y).contains(y));
                            }
                        }
                    }
                }
                p = p + 1;
            }
            proof {
                assert(range@ =~= Set::new(|y: i32| exists|j: int| 0 <= j < idx + 1 && #[trigger] m[ks[j]]@.contains(y))) by {
                    assert forall|y: i32| range@.contains(y) implies exists|j: int| 0 <= j < idx + 1 && #[trigger] m[ks[j]]@.contains(y) by {
                        if !r0.contains(y) {
                            let q = choose|q: int| 0 <= q < img@.len() && img@[q] == y;
                            assert(m[ks[idx as int]]@.contains(y));
                        }
                    }
                    assert forall|y: i32| (exists|j: int| 0 <= j < idx + 1 && #[trigger] m[ks[j]]@.contains(y)) implies range@.contains(y) by {
                        let j = choose|j: int| 0 <= j < idx + 1 && #[trigger] m[ks[j]]@.contains(y);
                        if j == idx {
                            let q = choose|q: int| 0 <= q < img@.len() && img@[q] == y;
                            assert(Set::new(|y: i32| exists|q: int| 0 <= q < img@.len() && img@[q] == y).contains(y));
                        } else {
                            assert(r0.contains(y));
                        }
                    }
                }
                assert(uniform <==> (forall|j: int| 0 <= j < idx + 1 ==> #[trigger] m[ks[j]]@.len() == first_len)) by {
                    if uniform {
                        assert forall|j: int| 0 <= j < idx + 1 implies #[trigger] m[ks[j]]@.len() == first_len by {
                            if j == idx {
                            }
                        }
                    } else {
                        if idx > 0 && img@.len() != first_len {
                            assert(m[ks[idx as int]]@.len() != first_len);
                        }
                    }
                }
            }
            idx = idx + 1;
        }
        let length: i32 = if nk == 0 {
            0
        } else if uniform {
            proof {
                assert(m.contains_key(ks[0]));
            }
            first_len as i32
        } else {
            -1
        };
        proof {
            assert(range@ =~= image_values(m)) by {
                assert forall|y: i32| image_values(m).contains(y) implies range@.contains(y) by {
                    let k = choose|k: i32| m.contains_key(k) && #[trigger] m[k]@.contains(y);
                    let j = lemma_keys_cover(ks, m, k);
                    assert(m[ks[j]]@.contains(y));
                }
                assert forall|y: i32| range@.contains(y) implies image_values(m).contains(y) by {
                    let j = choose|j: int| 0 <= j < nk && #[trigger] m[ks[j]]@.contains(y);
                    assert(ks.contains(ks[j]));
                    assert(m.contains_key(ks[j]));
                }
            }
            if nk == 0 {
                assert(m.dom() =~= Set::empty()) by {
                    assert forall|k: i32| m.dom().contains(k) implies false by {
                        let j = lemma_keys_cover(ks, m, k);
                    }
                }
            } else {
                assert(m.contains_key(ks[0]));
                assert(m.dom().contains(ks[0]));
                assert(m.dom().len() > 0);
                if uniform {
                    assert forall|a: i32, b: i32| m.contains_key(a) && m.contains_key(b) implies #[trigger] m[a]@.len()
                        == #[trigger] m[b]@.len() by {
                        let ja = lemma_keys_cover(ks, m, a);
                        let jb = lemma_keys_cover(ks, m, b);
                        assert(m[ks[ja]]@.len() == first_len);
                        assert(m[ks[jb]]@.len() == first_len);
                    }
                    let kc = choose|k: i32| m.contains_key(k);
                    let jc = lemma_keys_cover(ks, m, kc);
                    assert(m[ks[jc]]@.len() == first_len);
                } else {
                    let j = choose|j: int| 0 <= j < nk && #[trigger] m[ks[j]]@.len() != first_len;
                    assert(m.contains_key(ks[j]));
                    assert(m.contains_key(ks[0]));
                    assert(m[ks[j]]@.len() != m[ks[0]]@.len());
                }
            }
        }
        Morphism { length, mapping, range }
    }

    /// Succeeds when all images have the same positive length.
    pub fn require_positive_uniform_length(&self) -> (r: Result<(), MorphismError>)
        ensures
            self.length < 0 <==> r == Err::<(), MorphismError>(MorphismError::NotUniform),
            self.length == 0 <==> r == Err::<(), MorphismError>(MorphismError::NotPositiveUniform),
            self.length > 0 <==> r is Ok,
    {
        if self.length < 0 {
            return Err(MorphismError::NotUniform);
        }
        if self.length == 0 {
            return Err(MorphismError::NotPositiveUniform);
        }
        Ok(())
    }
}

/// A value as it is written in a morphism's text: `0..=9` bare, anything else in
/// square brackets.
pub open spec fn escaped(y: int) -> Seq<char> {
    if 0 <= y <= 9 {
        decimal(y as nat)
    } else {
        "["@ + signed_decimal(y) + "]"@
    }
}

/// The escaped values of an image, one after another.
pub open spec fn image_text(img: Seq<i32>) -> Seq<char>
    decreases img.len(),
{
    if img.len() == 0 {
        Seq::empty()
    } else {
        image_text(img.drop_last()) + escaped(img.last() as int)
    }
}

/// The line `<letter> -> <image>` of a morphism's text.
pub open spec fn line_text(k: i32, img: Seq<i32>) -> Seq<char> {
    escaped(k as int) + " -> "@ + image_text(img) + "\n"@
}

/// The lines of the letters `ks`, one after another.
pub open spec fn lines_text(ks: Seq<i32>, m: Map<i32, Vec<i32>>) -> Seq<char>
    decreases ks.len(),
{
    if ks.len() == 0 {
        Seq::empty()
    } else {
        lines_text(ks.drop_last(), m) + line_text(ks.last(), m[ks.last()]@)
    }
}

/// The text of `y`: bare for `0..=9`, in square brackets otherwise.
pub fn escaped_int(y: i32) -> (r: String)
    ensures
        r@ == escaped(y as int),
{
    let mut s = String::new();
    if 0 <= y && y <= 9 {
        push_decimal(&mut s, y as u64);
    } else {
        s.append("[");
        push_signed(&mut s, y as i64);
        s.append("]");
    }
    assert(s@ =~= escaped(y as int));
    s
}

impl Morphism {
    /// The text of the morphism: one line `<letter> -> <image>` per domain letter, in
    /// increasing letter order, with every value escaped as by [`escaped_int`].
    pub fn write(&self) -> (r: String)
        ensures
            r@ == lines_text(sorted_keys(self.mapping@), self.mapping@),
    {
        let keys = sorted_key_list(&self.mapping);
        let ghost m = self.mapping@;
        let ghost ks = keys@;
        let nk = keys.len();
        let mut out = String::new();
        let mut idx: usize = 0;
        while idx < nk
            invariant
                nk == ks.len(),
                ks == keys@,
                m == self.mapping@,
                is_sorted_key_seq(ks, m.dom()),
                idx <= nk,
                out@ == lines_text(ks.take(idx as int), m),
            decreases nk - idx,
        {
            let k = keys[idx];
            proof {
                assert(ks.contains(k));
            }
            let img = self.mapping.get(&k).unwrap();
            let ek = escaped_int(k);
            let mut line = String::new();
            line.append(ek.as_str());
            line.append(" -> ");
            let mut p: usize = 0;
            while p < img.len()
                invariant
                    *img == m[ks[idx as int]],
                    p <= img@.len(),
                    line@ == escaped(k as int) + " -> "@ + image_text(img@.take(p as int)),
                decreases img@.len() - p,
            {
                let ey = escaped_int(img[p]);
                line.append(ey.as_str());
                proof {
                    assert(img@.take(p + 1).drop_last() =~= img@.take(p as int));
                }
                p = p + 1;
            }
            line.append("\n");
            out.append(line.as_str());
            proof {
                assert(img@.take(p as int) =~= img@);
                assert(ks.take(idx + 1).drop_last() =~= ks.take(idx as int));
                assert(out@ =~= lines_text(ks.take(idx + 1), m));
            }
            idx = idx + 1;
        }
        proof {
            assert(ks.take(nk as int) =~= ks);
        }
        out
    }
}

/// The positions in `img` that hold `v`, in increasing order.
pub open spec fn positions_of(img: Seq<i32>, v: i32) -> Seq<nat>
    decreases img.len(),
{
    if img.len() == 0 {
        Seq::empty()
    } else if img.last() == v {
        positions_of(img.drop_last(), v).push((img.len() - 1) as nat)
    } else {
        positions_of(img.drop_last(), v)
    }
}

/// `r=p0|r=p1|..` for the positions `ps`.
pub open spec fn alternatives(ps: Seq<nat>) -> Seq<char>
    decreases ps.len(),
{
    if ps.len() == 0 {
        Seq::empty()
    } else if ps.len() == 1 {
        "r="@ + decimal(ps[0])
    } else {
        alternatives(ps.drop_last()) + "|r="@ + decimal(ps.last())
    }
}

/// The clause for letter `k` with image `img`: at the positions where `img` holds `v`
/// the letter is `k`, and where it holds no `v`, the letter is not `k`.
pub open spec fn clause_text(name: Seq<char>, k: i32, img: Seq<i32>, v: i32) -> Seq<char> {
    let ps = positions_of(img, v);
    " & ("@ + name + "[q]"@ + if ps.len() == 0 {
        "!= @"@ + signed_decimal(k as int) + ")"@
    } else {
        "= @"@ + signed_decimal(k as int) + " => ("@ + alternatives(ps) + "))"@
    }
}

/// The clauses of the letters `ks`, one after another.
pub open spec fn clauses_text(name: Seq<char>, ks: Seq<i32>, m: Map<i32, Vec<i32>>, v: i32) -> Seq<
    char,
>
    decreases ks.len(),
{
    if ks.len() == 0 {
        Seq::empty()
    } else {
        clauses_text(name, ks.drop_last(), m, v) + clause_text(name, ks.last(), m[ks.last()]@, v)
    }
}

/// The predicate text that accepts `n` exactly when the value `v` sits at position `n`
/// of the concatenated images, read through the automaton `name`.
pub open spec fn inter_predicate_text(
    num_sys: Seq<char>,
    length: int,
    name: Seq<char>,
    ks: Seq<i32>,
    m: Map<i32, Vec<i32>>,
    v: i32,
) -> Seq<char> {
    num_sys + " E q, r (n="@ + signed_decimal(length) + "*q+r & r>=0 & r<"@ + signed_decimal(length)
        + clauses_text(name, ks, m, v) + ")"@
}

/// Appends `r=j` (the first time) or `|r=j`.
fn push_alternative(s: &mut String, first: bool, j: usize)
    ensures
        final(s)@ == old(s)@ + (if first { "r="@ } else { "|r="@ }) + decimal(j as nat),
{
    if first {
        s.append("r=");
    } else {
        s.append("|r=");
    }
    push_decimal(s, j as u64);
}

impl Morphism {
    /// The predicate for the intermediary automaton that accepts `n` when the value
    /// `i` occurs at position `n` of the image word: with `q = n / length` and
    /// `r = n % length`, letter `base_automaton_name[q]` must be one whose image holds
    /// `i` at `r`. The length is written as it is, sign included.
    pub fn make_inter_predicate(&self, i: i32, base_automaton_name: &str, num_sys: &str) -> (r: String)
        ensures
            r@ == inter_predicate_text(
                num_sys@,
                self.length as int,
                base_automaton_name@,
                sorted_keys(self.mapping@),
                self.mapping@,
                i,
            ),
    {
        let keys = sorted_key_list(&self.mapping);
        let ghost m = self.mapping@;
        let ghost ks = keys@;
        let ghost name = base_automaton_name@;
        let nk = keys.len();
        let mut predicate = String::from_str(num_sys);
        predicate.append(" E q, r (n=");
        push_signed(&mut predicate, self.length as i64);
        predicate.append("*q+r & r>=0 & r<");
        push_signed(&mut predicate, self.length as i64);
        let ghost head = predicate@;
        let mut idx: usize = 0;
        while idx < nk
            invariant
                nk == ks.len(),
                ks == keys@,
                m == self.mapping@,
                name == base_automaton_name@,
                is_sorted_key_seq(ks, m.dom()),
                idx <= nk,
                predicate@ == head + clauses_text(name, ks.take(idx as int), m, i),
            decreases nk - idx,
        {
            let key = keys[idx];
            proof {
                assert(ks.contains(key));
            }
            let symbol_image = self.mapping.get(&key).unwrap();
            let mut found = false;
            let mut clause = String::from_str(" & (");
            clause.append(base_automaton_name);
            clause.append("[q]");
            let ghost start = clause@;
            let mut j: usize = 0;
            while j < symbol_image.len()
                invariant
                    *symbol_image == m[ks[idx as int]],
                    j <= symbol_image@.len(),
                    found <==> positions_of(symbol_image@.take(j as int), i).len() > 0,
                    clause@ == start + if found {
                        "= @"@ + signed_decimal(key as int) + " => ("@ + alternatives(
                            positions_of(symbol_image@.take(j as int), i),
                        )
                    } else {
                        Seq::empty()
                    },
                decreases symbol_image@.len() - j,
            {
                let ghost ps0 = positions_of(symbol_image@.take(j as int), i);
                proof {
                    assert(symbol_image@.take(j + 1).drop_last() =~= symbol_image@.take(j as int));
                }
                if symbol_image[j] == i {
                    if !found {
                        clause.append("= @");
                        push_signed(&mut clause, key as i64);
                        clause.append(" => (");
                        push_alternative(&mut clause, true, j);
                        found = true;
                        proof {
                            assert(ps0.len() == 0);
                            let ps1 = positions_of(symbol_image@.take(j + 1), i);
                            assert(ps1 =~= seq![j as nat]);
                            assert(alternatives(ps1) == "r="@ + decimal(ps1[0]));
                        }
                    } else {
                        push_alternative(&mut clause, false, j);
                        proof {
                            let ps1 = positions_of(symbol_image@.take(j + 1), i);
                            assert(ps1 == ps0.push(j as nat));
                            assert(ps1.drop_last() =~= ps0);
                        }
                    }
                }
                j = j + 1;
            }
            proof {
                assert(symbol_image@.take(j as int) =~= symbol_image@);
            }
            if found {
                clause.append("))");
            } else {
                clause.append("!= @");
                push_signed(&mut clause, key as i64);
                clause.append(")");
            }
            predicate.append(clause.as_str());
            proof {
                assert(clause@ =~= clause_text(name, key, m[key]@, i));
                assert(ks.take(idx + 1).drop_last() =~= ks.take(idx as int));
                assert(predicate@ =~= head + clauses_text(name, ks.take(idx + 1), m, i));
            }
            idx = idx + 1;
        }
        predicate.append(")");
        proof {
            assert(ks.take(nk as int) =~= ks);
        }
        predicate
    }
}

/// The length of the longest image among the letters `ks` (`0` for none).
pub open spec fn max_image_length(ks: Seq<i32>, m: Map<i32, Vec<i32>>) -> int
    decreases ks.len(),
{
    if ks.len() == 0 {
        0
    } else {
        let rest = max_image_length(ks.drop_last(), m);
        let l = m[ks.last()]@.len() as int;
        if l > rest {
            l
        } else {
            rest
        }
    }
}

/// The largest value in `img`, or `0` when it holds none larger.
pub open spec fn image_max(img: Seq<i32>) -> int
    decreases img.len(),
{
    if img.len() == 0 {
        0
    } else {
        let rest = image_max(img.drop_last());
        if img.last() > rest {
            img.last() as int
        } else {
            rest
        }
    }
}

/// The largest value in the images of the letters `ks`, or `0` when none is larger.
pub open spec fn max_entry(ks: Seq<i32>, m: Map<i32, Vec<i32>>) -> int
    decreases ks.len(),
{
    if ks.len() == 0 {
        0
    } else {
        let rest = max_entry(ks.drop_last(), m);
        let e = image_max(m[ks.last()]@);
        if e > rest {
            e
        } else {
            rest
        }
    }
}

/// Some image holds a negative value.
pub open spec fn has_negative(m: Map<i32, Vec<i32>>) -> bool {
    exists|k: i32, j: int| m.contains_key(k) && 0 <= j < m[k]@.len() && #[trigger] m[k]@[j] < 0
}

/// `row` sends each position of `img` to the single state named by the value there.
pub open spec fn promoted_row(img: Seq<i32>, row: Map<i32, Vec<usize>>) -> bool {
    &&& forall|sym: i32| #[trigger] row.contains_key(sym) <==> 0 <= sym < img.len()
    &&& forall|sym: i32| 0 <= sym < img.len() ==> #[trigger] row[sym]@ == seq![img[sym as int] as usize]
}

proof fn lemma_image_max(img: Seq<i32>)
    ensures
        image_max(img) >= 0,
        forall|j: int| 0 <= j < img.len() ==> img[j] <= image_max(img),
        image_max(img) <= i32::MAX,
    decreases img.len(),
{
    if img.len() > 0 {
        lemma_image_max(img.drop_last());
        assert forall|j: int| 0 <= j < img.len() implies img[j] <= image_max(img) by {
            if j < img.len() - 1 {
                assert(img[j] == img.drop_last()[j]);
            }
        }
    }
}

proof fn lemma_max_entry(ks: Seq<i32>, m: Map<i32, Vec<i32>>)
    ensures
        0 <= max_entry(ks, m) <= i32::MAX,
        forall|i: int, j: int|
            0 <= i < ks.len() && 0 <= j < m[ks[i]]@.len() ==> #[trigger] m[ks[i]]@[j] <= max_entry(ks, m),
    decreases ks.len(),
{
    if ks.len() > 0 {
        lemma_max_entry(ks.drop_last(), m);
        lemma_image_max(m[ks.last()]@);
        assert forall|i: int, j: int|
            0 <= i < ks.len() && 0 <= j < m[ks[i]]@.len() implies #[trigger] m[ks[i]]@[j] <= max_entry(ks, m) by {
            if i < ks.len() - 1 {
                assert(ks[i] == ks.drop_last()[i]);
            }
        }
    }
}

proof fn lemma_max_image_length(ks: Seq<i32>, m: Map<i32, Vec<i32>>)
    requires
        forall|i: int| 0 <= i < ks.len() ==> #[trigger] m[ks[i]]@.len() <= i32::MAX,
    ensures
        0 <= max_image_length(ks, m) <= i32::MAX,
    decreases ks.len(),
{
    if ks.len() > 0 {
        lemma_max_image_length(ks.drop_last(), m);
        assert(m[ks[ks.len() - 1]]@.len() <= i32::MAX);
    }
}

/// The length of the longest image (`0` for an empty domain).
fn determine_max_image_length(mapping: &BTreeMap<i32, Vec<i32>>) -> (r: usize)
    ensures
        r == max_image_length(sorted_keys(mapping@), mapping@),
{
    let keys = sorted_key_list(mapping);
    let ghost ks = keys@;
    let nk = keys.len();
    let mut best: usize = 0;
    let mut idx: usize = 0;
    while idx < nk
        invariant
            nk == ks.len(),
            ks == keys@,
            is_sorted_key_seq(ks, mapping@.dom()),
            idx <= nk,
            best == max_image_length(ks.take(idx as int), mapping@),
        decreases nk - idx,
    {
        let k = keys[idx];
        proof {
            assert(ks.contains(k));
            assert(ks.take(idx + 1).drop_last() =~= ks.take(idx as int));
        }
        let l = mapping.get(&k).unwrap().len();
        if l > best {
            best = l;
        }
        idx = idx + 1;
    }
    proof {
        assert(ks.take(nk as int) =~= ks);
    }
    best
}

/// The largest value in any image (`0` when none is larger), or
/// [`MorphismError::NegativeValue`] when some image holds a negative value.
fn determine_max_entry(mapping: &BTreeMap<i32, Vec<i32>>) -> (r: Result<i32, MorphismError>)
    ensures
        has_negative(mapping@) <==> r == Err::<i32, MorphismError>(MorphismError::NegativeValue),
        !has_negative(mapping@) ==> r == Ok::<i32, MorphismError>(
            max_entry(sorted_keys(mapping@), mapping@) as i32,
        ),
{
    let keys = sorted_key_list(mapping);
    let ghost ks = keys@;
    let ghost m = mapping@;
    let nk = keys.len();
    let mut best: i32 = 0;
    let mut idx: usize = 0;
    while idx < nk
        invariant
            nk == ks.len(),
            ks == keys@,
            m == mapping@,
            is_sorted_key_seq(ks, m.dom()),
            idx <= nk,
            best == max_entry(ks.take(idx as int), m),
            forall|i: int, j: int| 0 <= i < idx && 0 <= j < m[ks[i]]@.len() ==> #[trigger] m[ks[i]]@[j] >= 0,
        decreases nk - idx,
    {
        let k = keys[idx];
        proof {
            assert(ks.contains(k));
            assert(m.contains_key(k));
            assert(ks.take(idx + 1).drop_last() =~= ks.take(idx as int));
        }
        let img = mapping.get(&k).unwrap();
        let mut top: i32 = 0;
        let mut p: usize = 0;
        while p < img.len()
            invariant
                *img == m[ks[idx as int]],
                m == mapping@,
                m.contains_key(ks[idx as int]),
                p <= img@.len(),
                top == image_max(img@.take(p as int)),
                forall|j: int| 0 <= j < p ==> img@[j] >= 0,
            decreases img@.len() - p,
        {
            let y = img[p];
            if y < 0 {
                proof {
                    assert(m[ks[idx as int]]@[p as int] < 0);
                    assert(has_negative(m));
                }
                return Err(MorphismError::NegativeValue);
            }
            proof {
                assert(img@.take(p + 1).drop_last() =~= img@.take(p as int));
            }
            if y > top {
                top = y;
            }
            p = p + 1;
        }
        proof {
            assert(img@.take(p as int) =~= img@);
            assert forall|i: int, j: int| 0 <= i < idx + 1 && 0 <= j < m[ks[i]]@.len() implies #[trigger] m[ks[i]]@[j] >= 0 by {
                if i == idx {
                    assert(img@[j] >= 0);
                }
            }
        }
        if top > best {
            best = top;
        }
        idx = idx + 1;
    }
    proof {
        assert(ks.take(nk as int) =~= ks);
        if has_negative(m) {
            let (k, j) = choose|k: i32, j: int| m.contains_key(k) && 0 <= j < m[k]@.len() && #[trigger] m[k]@[j] < 0;
            let i = lemma_keys_cover(ks, m, k);
            assert(m[ks[i]]@[j] >= 0);
        }
    }
    Ok(best)
}

/// One row per domain letter, in increasing letter order: position `p` of the letter's
/// image goes to the state named by the value there.
fn determine_transitions(mapping: &BTreeMap<i32, Vec<i32>>) -> (r: Vec<BTreeMap<i32, Vec<usize>>>)
    requires
        !has_negative(mapping@),
        forall|k: i32| #[trigger] mapping@.contains_key(k) ==> mapping@[k]@.len() <= i32::MAX,
    ensures
        r@.len() == sorted_keys(mapping@).len(),
        forall|s: int|
            0 <= s < r@.len() ==> promoted_row(mapping@[sorted_keys(mapping@)[s]]@, #[trigger] r@[s]@),
{
    let keys = sorted_key_list(mapping);
    let ghost ks = keys@;
    let ghost m = mapping@;
    let nk = keys.len();
    let mut rows: Vec<BTreeMap<i32, Vec<usize>>> = Vec::new();
    let mut idx: usize = 0;
    while idx < nk
        invariant
            nk == ks.len(),
            ks == keys@,
            m == mapping@,
            !has_negative(m),
            forall|k: i32| #[trigger] m.contains_key(k) ==> m[k]@.len() <= i32::MAX,
            is_sorted_key_seq(ks, m.dom()),
            idx <= nk,
            rows@.len() == idx,
            forall|s: int| 0 <= s < idx ==> promoted_row(m[ks[s]]@, #[trigger] rows@[s]@),
        decreases nk - idx,
    {
        let k = keys[idx];
        proof {
            assert(ks.contains(k));
        }
        let img = mapping.get(&k).unwrap();
        let mut row: BTreeMap<i32, Vec<usize>> = BTreeMap::new();
        let mut p: usize = 0;
        while p < img.len()
            invariant
                *img == m[ks[idx as int]],
                m.contains_key(ks[idx as int]),
                !has_negative(m),
                img@.len() <= i32::MAX,
                p <= img@.len(),
                forall|sym: i32| #[trigger] row@.contains_key(sym) <==> 0 <= sym < p,
                forall|sym: i32| 0 <= sym < p ==> #[trigger] row@[sym]@ == seq![img@[sym as int] as usize],
            decreases img@.len() - p,
        {
            let y = img[p];
            proof {
                if y < 0 {
                    assert(m[ks[idx as int]]@[p as int] < 0);
                }
            }
            let mut dest: Vec<usize> = Vec::new();
            dest.push(y as usize);
            row.insert(p as i32, dest);
            proof {
                assert(dest@ =~= seq![img@[p as int] as usize]);
            }
            p = p + 1;
        }
        let ghost r0 = rows@;
        rows.push(row);
        proof {
            assert forall|s: int| 0 <= s < idx + 1 implies promoted_row(m[ks[s]]@, #[trigger] rows@[s]@) by {
                if s < idx {
                    assert(rows@[s] == r0[s]);
                }
            }
        }
        idx = idx + 1;
    }
    rows
}

impl Morphism {
    /// The word automaton of the morphism: state `s` stands for the `s`-th smallest
    /// domain letter and outputs `s`, and reading digit `p` from it leads to the state
    /// named by position `p` of that letter's image. Its one track reads digits
    /// `0..m` most significant first, for `m` the longest image length, and its
    /// numbering is fixed.
    ///
    /// Fails with [`MorphismError::NegativeValue`] when an image holds a negative value,
    /// else with [`MorphismError::NumberSystemNotDefined`] when the longest image is
    /// shorter than two, else with [`MorphismError::DomainDoesNotCoverImageRange`] when
    /// there are fewer domain letters than values `0..=max`; domain letters beyond the
    /// values used are dropped.
    pub fn to_word_automaton(&self) -> (r: Result<Automaton, MorphismError>)
        requires
            forall|k: i32| #[trigger] self.mapping@.contains_key(k) ==> self.mapping@[k]@.len() <= i32::MAX,
        ensures
            ({
                let m = self.mapping@;
                let ks = sorted_keys(m);
                let ml = max_image_length(ks, m);
                let me = max_entry(ks, m);
                &&& has_negative(m) <==> r == Err::<Automaton, MorphismError>(MorphismError::NegativeValue)
                &&& (!has_negative(m) && ml < 2) <==> r == Err::<Automaton, MorphismError>(
                    MorphismError::NumberSystemNotDefined(ml as usize),
                )
                &&& (!has_negative(m) && ml >= 2 && ks.len() < me + 1) <==> r == Err::<
                    Automaton,
                    MorphismError,
                >(MorphismError::DomainDoesNotCoverImageRange)
                &&& (!has_negative(m) && ml >= 2 && ks.len() >= me + 1) ==> r is Ok
                &&& r is Ok ==> {
                    let a = r->Ok_0;
                    &&& a.fa.true_false is None
                    &&& a.fa.q0 == 0
                    &&& a.fa.q == me + 1
                    &&& a.fa.alphabet_size == ml
                    &&& a.fa.o@ == Seq::new((me + 1) as nat, |s: int| s as i32)
                    &&& a.fa.d@.len() == me + 1
                    &&& forall|s: int| 0 <= s <= me ==> promoted_row(m[ks[s]]@, #[trigger] a.fa.d@[s]@)
                    &&& a.alphabet@.len() == 1
                    &&& a.alphabet@[0]@ == Seq::new(ml as nat, |d: int| d as i32)
                    &&& a.label@.len() == 0
                    &&& a.msd@ == seq![Some(true)]
                    &&& a.canonized
                }
            }),
    {
        let ghost m = self.mapping@;
        let keys = sorted_key_list(&self.mapping);
        let ghost ks = keys@;
        proof {
            assert forall|i: int| 0 <= i < ks.len() implies #[trigger] m[ks[i]]@.len() <= i32::MAX by {
                assert(ks.contains(ks[i]));
                assert(m.contains_key(ks[i]));
            }
            lemma_max_image_length(ks, m);
        }
        let max_image_length = determine_max_image_length(&self.mapping);
        let max_entry = determine_max_entry(&self.mapping);
        let max_entry = match max_entry {
            Ok(v) => v,
            Err(e) => {
                return Err(e);
            },
        };
        let mut new_d = determine_transitions(&self.mapping);
        if max_image_length < 2 {
            return Err(MorphismError::NumberSystemNotDefined(max_image_length));
        }
        proof {
            lemma_max_entry(ks, m);
        }
        let q = max_entry as usize + 1;
        if new_d.len() < q {
            return Err(MorphismError::DomainDoesNotCoverImageRange);
        }
        new_d.truncate(q);
        let mut o: Vec<i32> = Vec::new();
        let mut s: usize = 0;
        while s < q
            invariant
                s <= q,
                q == max_entry + 1,
                0 <= max_entry,
                o@ == Seq::new(s as nat, |x: int| x as i32),
            decreases q - s,
        {
            o.push(s as i32);
            proof {
                assert(o@ =~= Seq::new((s + 1) as nat, |x: int| x as i32));
            }
            s = s + 1;
        }
        let mut fa = Fa::with_states(0, 0, max_image_length, Vec::new(), Vec::new());
        fa.set_fields(q, o, new_d);
        let mut digits: Vec<i32> = Vec::new();
        let mut dgt: usize = 0;
        while dgt < max_image_length
            invariant
                dgt <= max_image_length,
                max_image_length <= i32::MAX,
                digits@ == Seq::new(dgt as nat, |x: int| x as i32),
            decreases max_image_length - dgt,
        {
            digits.push(dgt as i32);
            proof {
                assert(digits@ =~= Seq::new((dgt + 1) as nat, |x: int| x as i32));
            }
            dgt = dgt + 1;
        }
        let mut alphabet: Vec<Vec<i32>> = Vec::new();
        alphabet.push(digits);
        let mut msd: Vec<Option<bool>> = Vec::new();
        msd.push(Some(true));
        let mut promotion = Automaton::new(fa, alphabet, Vec::new(), msd);
        promotion.set_canonized(true);
        proof {
            assert(promotion.msd@ =~= seq![Some(true)]);
        }
        Ok(promotion)
    }
}

} // verus!
