//! Compilation of a regular expression into a trigram requirement.
//!
//! A [`Pattern`] is a parsed regular expression; [`compile`] folds it,
//! bottom-up, into a [`Require`] tree: a boolean AND/OR expression over
//! trigrams that every matching string necessarily contains.  The analysis is
//! sound — it never excludes a true match — and degrades to
//! [`Require::Unconstrained`] wherever no trigram can be guaranteed.

use crate::tri::lemma_trigrams_subrange;
use crate::tri::pack;
use crate::tri::simplify;
use crate::tri::spec_trigram_at;
use crate::tri::spec_trigrams;
use vstd::prelude::*;

verus! {

/// A regular expression, reduced to the structure the trigram analysis reads.
///
/// Constructs that carry no trigram information (character classes wider than
/// one character, anchors, look-arounds) are represented by the pattern that
/// over-approximates them: `AnyChar` for any single character, `Anything` for
/// anything at all.  Such widening is sound: it can only weaken the compiled
/// requirement.
pub enum Pattern {
    /// Matches exactly this character sequence.
    Literal(Vec<char>),
    /// Matches any single character.
    AnyChar,
    /// Matches any string; stands in for constructs the analysis cannot read.
    Anything,
    /// Matches a string the left pattern matches followed by one the right
    /// pattern matches.
    Concat(Box<Pattern>, Box<Pattern>),
    /// Matches what either pattern matches.
    Alt(Box<Pattern>, Box<Pattern>),
    /// Matches `min` or more consecutive repetitions of the pattern.
    Repeat(u32, Box<Pattern>),
}

/// Whether the pattern matches the whole string `s`.
pub open spec fn matches(p: Pattern, s: Seq<char>) -> bool
    decreases p, 0nat, 0nat, 0nat,
{
    match p {
        Pattern::Literal(w) => s == w@,
        Pattern::AnyChar => s.len() == 1,
        Pattern::Anything => true,
        Pattern::Concat(a, b) => exists|i: int|
            0 <= i <= s.len() && matches(*a, s.subrange(0, i)) && matches(
                *b,
                s.subrange(i, s.len() as int),
            ),
        Pattern::Alt(a, b) => matches(*a, s) || matches(*b, s),
        Pattern::Repeat(m, a) => matches_min(*a, m, s),
    }
}

/// Whether `s` is the concatenation of `m` or more strings that `p` matches.
pub open spec fn matches_min(p: Pattern, m: u32, s: Seq<char>) -> bool
    decreases p, 2nat, m, 0nat,
{
    if m == 0 {
        matches_star(p, s)
    } else {
        exists|i: int|
            0 <= i <= s.len() && matches(p, s.subrange(0, i)) && matches_min(
                p,
                (m - 1) as u32,
                s.subrange(i, s.len() as int),
            )
    }
}

/// Whether `s` is the concatenation of any number (zero or more) of strings
/// that `p` matches.  Splitting off nonempty pieces loses no generality:
/// repeating an empty match contributes nothing to `s`.
pub open spec fn matches_star(p: Pattern, s: Seq<char>) -> bool
    decreases p, 1nat, 0nat, s.len(),
{
    s.len() == 0 || exists|i: int|
        1 <= i <= s.len() && matches(p, s.subrange(0, i)) && matches_star(
            p,
            s.subrange(i, s.len() as int),
        )
}

/// A trigram requirement: a necessary condition, over the trigrams a text
/// contains, for the compiled pattern to match somewhere in that text.
pub enum Require {
    /// No trigram information: every text must be scanned.
    Unconstrained,
    /// Every trigram listed must be present in the text.
    Exact(Vec<u32>),
    /// Both requirements must hold.
    And(Box<Require>, Box<Require>),
    /// At least one requirement must hold.
    Or(Box<Require>, Box<Require>),
}

/// Structural invariant of a requirement tree: an exact leaf lists at least
/// one trigram (an empty leaf would say nothing and belongs to
/// `Unconstrained`).
pub open spec fn wf_require(r: Require) -> bool
    decreases r,
{
    match r {
        Require::Unconstrained => true,
        Require::Exact(ts) => ts@.len() > 0,
        Require::And(a, b) => wf_require(*a) && wf_require(*b),
        Require::Or(a, b) => wf_require(*a) && wf_require(*b),
    }
}

/// Whether a text whose trigram set is `have` satisfies the requirement.
pub open spec fn sat(r: Require, have: Set<u32>) -> bool
    decreases r,
{
    match r {
        Require::Unconstrained => true,
        Require::Exact(ts) => forall|k: int| 0 <= k < ts@.len() ==> have.contains(ts@[k]),
        Require::And(a, b) => sat(*a, have) && sat(*b, have),
        Require::Or(a, b) => sat(*a, have) || sat(*b, have),
    }
}

/// Satisfaction is monotone in the trigram set: a text with more trigrams
/// satisfies every requirement a text with fewer does.
pub proof fn lemma_sat_monotone(r: Require, small: Set<u32>, big: Set<u32>)
    requires
        sat(r, small),
        small.subset_of(big),
    ensures
        sat(r, big),
    decreases r,
{
    match r {
        Require::Unconstrained => {},
        Require::Exact(ts) => {},
        Require::And(a, b) => {
            lemma_sat_monotone(*a, small, big);
            lemma_sat_monotone(*b, small, big);
        },
        Require::Or(a, b) => {
            if sat(*a, small) {
                lemma_sat_monotone(*a, small, big);
            } else {
                lemma_sat_monotone(*b, small, big);
            }
        },
    }
}

/// The requirement a pattern is owed, stated over mathematical values: what
/// [`compile`] must build, with trigram sets in place of vectors.  This is
/// the structural rule table for the analysis: literals of three or more
/// characters demand their trigram set, concatenation demands both sides
/// (merged into one literal where both sides are literal), alternation
/// demands either side, and a repetition that may be empty demands nothing.
pub enum ReqModel {
    /// No trigram information.
    Unconstrained,
    /// Every trigram of this set must be present.
    Exact(Set<u32>),
    /// Both requirements must hold.
    And(Box<ReqModel>, Box<ReqModel>),
    /// At least one requirement must hold.
    Or(Box<ReqModel>, Box<ReqModel>),
}

/// Whether a text whose trigram set is `have` satisfies the model.
pub open spec fn model_sat(m: ReqModel, have: Set<u32>) -> bool
    decreases m,
{
    match m {
        ReqModel::Unconstrained => true,
        ReqModel::Exact(ts) => ts.subset_of(have),
        ReqModel::And(x, y) => model_sat(*x, have) && model_sat(*y, have),
        ReqModel::Or(x, y) => model_sat(*x, have) || model_sat(*y, have),
    }
}

/// The model a literal demands.
pub open spec fn literal_require(w: Seq<char>) -> ReqModel {
    if w.len() >= 3 {
        ReqModel::Exact(spec_trigrams(w))
    } else {
        ReqModel::Unconstrained
    }
}

/// Conjunction of two models, absorbing unconstrained sides.
pub open spec fn and_model(x: ReqModel, y: ReqModel) -> ReqModel {
    if x is Unconstrained {
        y
    } else if y is Unconstrained {
        x
    } else {
        ReqModel::And(Box::new(x), Box::new(y))
    }
}

/// Disjunction of two models; an unconstrained side absorbs the whole.
pub open spec fn or_model(x: ReqModel, y: ReqModel) -> ReqModel {
    if x is Unconstrained || y is Unconstrained {
        ReqModel::Unconstrained
    } else {
        ReqModel::Or(Box::new(x), Box::new(y))
    }
}

/// The pattern's whole language as one literal, where it has one: a literal
/// itself, or a concatenation of patterns that do.
pub open spec fn spec_literal_of(p: Pattern) -> Option<Seq<char>>
    decreases p,
{
    match p {
        Pattern::Literal(w) => Some(w@),
        Pattern::Concat(a, b) => match (spec_literal_of(*a), spec_literal_of(*b)) {
            (Option::Some(x), Option::Some(y)) => Some(x + y),
            _ => None,
        },
        _ => None,
    }
}

/// The model [`compile`] must return for each pattern, by the structural
/// rules above.
pub open spec fn spec_require(p: Pattern) -> ReqModel
    decreases p,
{
    match p {
        Pattern::Literal(w) => literal_require(w@),
        Pattern::AnyChar => ReqModel::Unconstrained,
        Pattern::Anything => ReqModel::Unconstrained,
        Pattern::Concat(a, b) => match (spec_literal_of(*a), spec_literal_of(*b)) {
            (Option::Some(x), Option::Some(y)) => literal_require(x + y),
            _ => and_model(spec_require(*a), spec_require(*b)),
        },
        Pattern::Alt(a, b) => or_model(spec_require(*a), spec_require(*b)),
        Pattern::Repeat(m, a) => if m == 0 {
            ReqModel::Unconstrained
        } else {
            spec_require(*a)
        },
    }
}

/// `and_model` means conjunction and is unconstrained only when both sides
/// are.
pub proof fn lemma_and_model(x: ReqModel, y: ReqModel, have: Set<u32>)
    ensures
        model_sat(and_model(x, y), have) == (model_sat(x, have) && model_sat(y, have)),
        (and_model(x, y) is Unconstrained) == (x is Unconstrained && y is Unconstrained),
{
}

/// `or_model` means disjunction and is unconstrained as soon as one side is.
pub proof fn lemma_or_model(x: ReqModel, y: ReqModel, have: Set<u32>)
    ensures
        model_sat(or_model(x, y), have) == (model_sat(x, have) || model_sat(y, have)),
        (or_model(x, y) is Unconstrained) == (x is Unconstrained || y is Unconstrained),
{
}

/// A pattern with a literal language matches nothing but that literal.
proof fn lemma_literal_of_matches(p: Pattern, w: Seq<char>, s: Seq<char>)
    requires
        spec_literal_of(p) == Some(w),
        matches(p, s),
    ensures
        s == w,
    decreases p,
{
    match p {
        Pattern::Literal(v) => {},
        Pattern::Concat(a, b) => {
            match (spec_literal_of(*a), spec_literal_of(*b)) {
                (Option::Some(x), Option::Some(y)) => {
                    let i = choose|i: int|
                        0 <= i <= s.len() && matches(*a, s.subrange(0, i)) && matches(
                            *b,
                            s.subrange(i, s.len() as int),
                        );
                    lemma_literal_of_matches(*a, x, s.subrange(0, i));
                    lemma_literal_of_matches(*b, y, s.subrange(i, s.len() as int));
                    assert(s =~= s.subrange(0, i) + s.subrange(i, s.len() as int));
                },
                _ => {
                    assert(false);
                },
            }
        },
        _ => {
            assert(false);
        },
    }
}

/// Conjunction of two requirements, absorbing `Unconstrained` sides so that a
/// constrained side is never weakened by an unconstrained sibling.
pub fn and_require(x: Require, y: Require) -> (r: Require)
    requires
        wf_require(x),
        wf_require(y),
    ensures
        wf_require(r),
        forall|have: Set<u32>| #[trigger] sat(r, have) <==> (sat(x, have) && sat(y, have)),
        (r is Unconstrained) <==> (x is Unconstrained && y is Unconstrained),
{
    match x {
        Require::Unconstrained => y,
        _ => match y {
            Require::Unconstrained => x,
            _ => Require::And(Box::new(x), Box::new(y)),
        },
    }
}

/// Disjunction of two requirements; an unconstrained side makes the whole
/// requirement unconstrained, since the match may have taken that branch.
pub fn or_require(x: Require, y: Require) -> (r: Require)
    requires
        wf_require(x),
        wf_require(y),
    ensures
        wf_require(r),
        forall|have: Set<u32>| #[trigger] sat(r, have) <==> (sat(x, have) || sat(y, have)),
        (r is Unconstrained) <==> (x is Unconstrained || y is Unconstrained),
{
    if matches!(x, Require::Unconstrained) || matches!(y, Require::Unconstrained) {
        Require::Unconstrained
    } else {
        Require::Or(Box::new(x), Box::new(y))
    }
}

/// Whether `v` lists the value `x`.
fn vec_has(v: &Vec<u32>, x: u32) -> (b: bool)
    ensures
        b == v@.contains(x),
{
    let mut i: usize = 0;
    while i < v.len()
        invariant
            i <= v@.len(),
            forall|k: int| 0 <= k < i ==> v@[k] != x,
        decreases v@.len() - i,
    {
        if v[i] == x {
            return true;
        }
        i = i + 1;
    }
    false
}

/// The requirement a literal contributes: every trigram of the literal, or
/// `Unconstrained` when the literal is too short to span a trigram.
pub fn compile_literal(w: &Vec<char>) -> (r: Require)
    ensures
        wf_require(r),
        (r is Unconstrained) <==> w@.len() < 3,
        w@.len() >= 3 ==> (r matches Require::Exact(ts) && ts@.len() > 0 && (forall|x: u32|
            ts@.contains(x) <==> spec_trigrams(w@).contains(x))),
        forall|have: Set<u32>| #[trigger] sat(r, have) <==> model_sat(literal_require(w@), have),
        forall|s: Seq<char>| s == w@ ==> (#[trigger] sat(r, spec_trigrams(s))),
{
    let n = w.len();
    if n < 3 {
        return Require::Unconstrained;
    }
    let mut ts: Vec<u32> = Vec::new();
    let mut i: usize = 0;
    while i < n - 2
        invariant
            3 <= n == w@.len(),
            i <= n - 2,
            i > 0 ==> ts@.len() > 0,
            forall|x: u32|
                ts@.contains(x) <==> exists|k: int|
                    0 <= k < i && x == spec_trigram_at(w@, k),
        decreases n - 2 - i,
    {
        let t = pack([simplify(w[i]), simplify(w[i + 1]), simplify(w[i + 2])]);
        proof {
            assert(t == spec_trigram_at(w@, i as int));
        }
        let ghost ts0 = ts@;
        if !vec_has(&ts, t) {
            ts.push(t);
            proof {
                crate::posting::lemma_push_contains(ts0, t);
            }
        }
        proof {
            assert forall|x: u32| ts@.contains(x) implies exists|k: int|
                0 <= k < i + 1 && x == spec_trigram_at(w@, k) by {
                if ts0.contains(x) {
                    let k = choose|k: int| 0 <= k < i && x == spec_trigram_at(w@, k);
                    assert(0 <= k < i + 1 && x == spec_trigram_at(w@, k));
                } else {
                    assert(x == spec_trigram_at(w@, i as int));
                }
            }
        }
        i = i + 1;
    }
    proof {
        assert forall|x: u32| ts@.contains(x) implies spec_trigrams(w@).contains(x) by {
            let k = choose|k: int| 0 <= k < (n - 2) && x == spec_trigram_at(w@, k);
            assert(0 <= k && k + 2 < w@.len() && x == spec_trigram_at(w@, k));
        }
        assert forall|x: u32| spec_trigrams(w@).contains(x) implies ts@.contains(x) by {
            let k = choose|k: int| 0 <= k && k + 2 < w@.len() && x == spec_trigram_at(w@, k);
            assert(0 <= k < (n - 2) && x == spec_trigram_at(w@, k));
        }
        assert(forall|k: int| 0 <= k < ts@.len() ==> ts@.contains(ts@[k]));
    }
    let ghost gts = ts@;
    let r = Require::Exact(ts);
    proof {
        assert forall|have: Set<u32>| #[trigger] sat(r, have) <==> model_sat(
            literal_require(w@),
            have,
        ) by {
            assert(sat(r, have) == (forall|kk: int| 0 <= kk < gts.len() ==> have.contains(
                gts[kk],
            )));
            if sat(r, have) {
                assert forall|x: u32| spec_trigrams(w@).contains(x) implies have.contains(x) by {
                    assert(gts.contains(x));
                    let k = choose|k: int| 0 <= k < gts.len() && gts[k] == x;
                    assert(have.contains(gts[k]));
                }
                assert(spec_trigrams(w@).subset_of(have));
            }
            if model_sat(literal_require(w@), have) {
                assert forall|k: int| 0 <= k < gts.len() implies have.contains(gts[k]) by {
                    assert(gts.contains(gts[k]));
                    assert(spec_trigrams(w@).contains(gts[k]));
                }
            }
        }
    }
    r
}

/// Copies a character vector.
fn copy_chars(v: &Vec<char>) -> (r: Vec<char>)
    ensures
        r@ == v@,
{
    let mut r: Vec<char> = Vec::new();
    let mut i: usize = 0;
    while i < v.len()
        invariant
            i <= v@.len(),
            r@ =~= v@.take(i as int),
        decreases v@.len() - i,
    {
        r.push(v[i]);
        proof {
            assert(r@ =~= v@.take(i + 1));
        }
        i = i + 1;
    }
    proof {
        assert(r@ =~= v@);
    }
    r
}

/// Concatenates two character vectors.
fn concat_chars(a: &Vec<char>, b: &Vec<char>) -> (r: Vec<char>)
    ensures
        r@ == a@ + b@,
{
    let mut r = copy_chars(a);
    let mut i: usize = 0;
    while i < b.len()
        invariant
            i <= b@.len(),
            r@ =~= a@ + b@.take(i as int),
        decreases b@.len() - i,
    {
        r.push(b[i]);
        proof {
            assert(r@ =~= a@ + b@.take(i + 1));
        }
        i = i + 1;
    }
    proof {
        assert(r@ =~= a@ + b@);
    }
    r
}

/// The pattern's whole language as one literal vector, where it has one.
fn literal_of(p: &Pattern) -> (r: Option<Vec<char>>)
    ensures
        match r {
            Some(w) => spec_literal_of(*p) == Some(w@),
            None => spec_literal_of(*p) is None,
        },
    decreases *p,
{
    match p {
        Pattern::Literal(w) => {
            proof {
                assert(*p == Pattern::Literal(*w));
            }
            Some(copy_chars(w))
        },
        Pattern::Concat(a, b) => {
            proof {
                assert(*p == Pattern::Concat(*a, *b));
            }
            let la = literal_of(&**a);
            let lb = literal_of(&**b);
            if la.is_some() && lb.is_some() {
                let x = la.unwrap();
                let y = lb.unwrap();
                Some(concat_chars(&x, &y))
            } else {
                None
            }
        },
        _ => None,
    }
}

/// A repetition that must occur at least once starts with a full match of the
/// repeated pattern.
proof fn lemma_repeat_prefix(m: u32, a: Box<Pattern>, s: Seq<char>)
    requires
        m >= 1,
        matches(Pattern::Repeat(m, a), s),
    ensures
        exists|i: int| 0 <= i <= s.len() && #[trigger] matches(*a, s.subrange(0, i)),
{
    assert(matches_min(*a, m, s));
    let i = choose|i: int|
        0 <= i <= s.len() && matches(*a, s.subrange(0, i)) && matches_min(
            *a,
            (m - 1) as u32,
            s.subrange(i, s.len() as int),
        );
    assert(0 <= i <= s.len() && matches(*a, s.subrange(0, i)));
}

/// Compiles a pattern into a sound trigram requirement.
///
/// Soundness: every string the pattern matches satisfies the returned
/// requirement over its own trigram set, so index filtering with this
/// requirement never excludes a true match.  A pattern that can match the
/// empty string compiles to `Unconstrained` and filters nothing out.
pub fn compile(p: &Pattern) -> (r: Require)
    ensures
        wf_require(r),
        forall|s: Seq<char>| #[trigger] matches(*p, s) ==> sat(r, spec_trigrams(s)),
        matches(*p, Seq::<char>::empty()) ==> (r is Unconstrained),
        (r is Unconstrained) <==> (spec_require(*p) is Unconstrained),
        forall|have: Set<u32>| #[trigger] sat(r, have) <==> model_sat(spec_require(*p), have),
        *p matches Pattern::Literal(w) ==> ((w@.len() >= 3 ==> (r matches Require::Exact(ts)
            && ts@.len() > 0 && (forall|x: u32|
            ts@.contains(x) <==> spec_trigrams(w@).contains(x)))) && (w@.len() < 3
            ==> r is Unconstrained)),
    decreases *p,
{
    match p {
        Pattern::Literal(w) => {
            let r = compile_literal(w);
            proof {
                assert(*p == Pattern::Literal(*w));
                assert(spec_require(*p) == literal_require(w@));
                assert forall|s: Seq<char>| #[trigger] matches(*p, s) implies sat(
                    r,
                    spec_trigrams(s),
                ) by {
                    assert(s == w@);
                }
                if matches(*p, Seq::<char>::empty()) {
                    assert(w@.len() == 0);
                }
            }
            r
        },
        Pattern::AnyChar => {
            let r = Require::Unconstrained;
            proof {
                assert(spec_require(*p) == ReqModel::Unconstrained);
                assert(forall|have: Set<u32>| #[trigger] sat(r, have) <==> model_sat(
                    spec_require(*p),
                    have,
                ));
            }
            r
        },
        Pattern::Anything => {
            let r = Require::Unconstrained;
            proof {
                assert(spec_require(*p) == ReqModel::Unconstrained);
                assert(forall|have: Set<u32>| #[trigger] sat(r, have) <==> model_sat(
                    spec_require(*p),
                    have,
                ));
            }
            r
        },
        Pattern::Concat(a, b) => {
            proof {
                assert(*p == Pattern::Concat(*a, *b));
            }
            let la = literal_of(&**a);
            let lb = literal_of(&**b);
            if la.is_some() && lb.is_some() {
                // Both sides have a fixed text, however deeply nested:
                // compile their concatenation as one literal, capturing every
                // trigram that straddles the boundary.
                let x = la.unwrap();
                let y = lb.unwrap();
                let joined = concat_chars(&x, &y);
                let r = compile_literal(&joined);
                proof {
                    assert(spec_literal_of(**a) == Some(x@));
                    assert(spec_literal_of(**b) == Some(y@));
                    assert(spec_require(*p) == literal_require(x@ + y@));
                    assert forall|s: Seq<char>| #[trigger] matches(*p, s) implies sat(
                        r,
                        spec_trigrams(s),
                    ) by {
                        let i = choose|i: int|
                            0 <= i <= s.len() && matches(**a, s.subrange(0, i)) && matches(
                                **b,
                                s.subrange(i, s.len() as int),
                            );
                        lemma_literal_of_matches(**a, x@, s.subrange(0, i));
                        lemma_literal_of_matches(**b, y@, s.subrange(i, s.len() as int));
                        assert(s =~= x@ + y@);
                    }
                    if matches(*p, Seq::<char>::empty()) {
                        let s = Seq::<char>::empty();
                        let i = choose|i: int|
                            0 <= i <= s.len() && matches(**a, s.subrange(0, i)) && matches(
                                **b,
                                s.subrange(i, s.len() as int),
                            );
                        lemma_literal_of_matches(**a, x@, s.subrange(0, i));
                        lemma_literal_of_matches(**b, y@, s.subrange(i, s.len() as int));
                        assert(s =~= x@ + y@);
                        assert((x@ + y@).len() == 0);
                    }
                }
                r
            } else {
                let rl = compile(&**a);
                let rr = compile(&**b);
                let r = and_require(rl, rr);
                proof {
                    assert(spec_require(*p) == and_model(
                        spec_require(**a),
                        spec_require(**b),
                    ));
                    lemma_and_model(spec_require(**a), spec_require(**b), Set::<u32>::empty());
                    assert forall|have: Set<u32>| #[trigger] sat(r, have) <==> model_sat(
                        spec_require(*p),
                        have,
                    ) by {
                        lemma_and_model(spec_require(**a), spec_require(**b), have);
                    }
                    assert forall|s: Seq<char>| #[trigger] matches(*p, s) implies sat(
                        r,
                        spec_trigrams(s),
                    ) by {
                        let i = choose|i: int|
                            0 <= i <= s.len() && matches(**a, s.subrange(0, i)) && matches(
                                **b,
                                s.subrange(i, s.len() as int),
                            );
                        lemma_trigrams_subrange(s, 0, i);
                        assert(spec_trigrams(s.subrange(0, i)).subset_of(spec_trigrams(s)));
                        lemma_sat_monotone(
                            rl,
                            spec_trigrams(s.subrange(0, i)),
                            spec_trigrams(s),
                        );
                        lemma_trigrams_subrange(s, i, s.len() as int);
                        assert(spec_trigrams(s.subrange(i, s.len() as int)).subset_of(
                            spec_trigrams(s),
                        ));
                        lemma_sat_monotone(
                            rr,
                            spec_trigrams(s.subrange(i, s.len() as int)),
                            spec_trigrams(s),
                        );
                    }
                    if matches(*p, Seq::<char>::empty()) {
                        let s = Seq::<char>::empty();
                        let i = choose|i: int|
                            0 <= i <= s.len() && matches(**a, s.subrange(0, i)) && matches(
                                **b,
                                s.subrange(i, s.len() as int),
                            );
                        assert(s.subrange(0, i) =~= Seq::<char>::empty());
                        assert(s.subrange(i, s.len() as int) =~= Seq::<char>::empty());
                    }
                }
                r
            }
        },
        Pattern::Alt(a, b) => {
            let rl = compile(&**a);
            let rr = compile(&**b);
            let r = or_require(rl, rr);
            proof {
                assert(*p == Pattern::Alt(*a, *b));
                assert(spec_require(*p) == or_model(spec_require(**a), spec_require(**b)));
                lemma_or_model(spec_require(**a), spec_require(**b), Set::<u32>::empty());
                assert forall|have: Set<u32>| #[trigger] sat(r, have) <==> model_sat(
                    spec_require(*p),
                    have,
                ) by {
                    lemma_or_model(spec_require(**a), spec_require(**b), have);
                }
                assert forall|s: Seq<char>| #[trigger] matches(*p, s) implies sat(
                    r,
                    spec_trigrams(s),
                ) by {
                    assert(matches(**a, s) || matches(**b, s));
                }
                if matches(*p, Seq::<char>::empty()) {
                    assert(matches(**a, Seq::<char>::empty()) || matches(
                        **b,
                        Seq::<char>::empty(),
                    ));
                }
            }
            r
        },
        Pattern::Repeat(m, a) => {
            if *m == 0 {
                let r = Require::Unconstrained;
                proof {
                    assert(*p == Pattern::Repeat(*m, *a));
                    assert(spec_require(*p) == ReqModel::Unconstrained);
                    assert(forall|have: Set<u32>| #[trigger] sat(r, have) <==> model_sat(
                        spec_require(*p),
                        have,
                    ));
                }
                r
            } else {
                let r = compile(&**a);
                proof {
                    assert(*p == Pattern::Repeat(*m, *a));
                    assert(spec_require(*p) == spec_require(**a));
                    assert forall|s: Seq<char>| #[trigger] matches(*p, s) implies sat(
                        r,
                        spec_trigrams(s),
                    ) by {
                        lemma_repeat_prefix(*m, *a, s);
                        let i = choose|i: int|
                            0 <= i <= s.len() && #[trigger] matches(**a, s.subrange(0, i));
                        lemma_trigrams_subrange(s, 0, i);
                        assert(spec_trigrams(s.subrange(0, i)).subset_of(spec_trigrams(s)));
                        lemma_sat_monotone(r, spec_trigrams(s.subrange(0, i)), spec_trigrams(s));
                    }
                    if matches(*p, Seq::<char>::empty()) {
                        let s = Seq::<char>::empty();
                        lemma_repeat_prefix(*m, *a, s);
                        let i = choose|i: int|
                            0 <= i <= s.len() && #[trigger] matches(**a, s.subrange(0, i));
                        assert(s.subrange(0, i) =~= Seq::<char>::empty());
                    }
                }
                r
            }
        },
    }
}

} // verus!
