//! Compilation of patterns into trigram requirements.

use std::collections::HashSet;
use trigram_index::query::compile;
use trigram_index::query::Pattern;
use trigram_index::query::Require;
use trigram_index::tri::pack;
use trigram_index::tri::simplify;

fn lit(s: &str) -> Pattern {
    Pattern::Literal(s.chars().collect())
}

fn tri_of(a: char, b: char, c: char) -> u32 {
    pack([simplify(a), simplify(b), simplify(c)])
}

fn exact_set(r: &Require) -> HashSet<u32> {
    match r {
        Require::Exact(ts) => ts.iter().copied().collect(),
        _ => panic!("expected an exact leaf"),
    }
}

#[test]
fn literal_compiles_to_its_trigram_set() {
    let r = compile(&lit("hello"));
    let want: HashSet<u32> =
        [tri_of('h', 'e', 'l'), tri_of('e', 'l', 'l'), tri_of('l', 'l', 'o')].into_iter().collect();
    assert_eq!(exact_set(&r), want);
}

#[test]
fn short_literal_is_unconstrained() {
    assert!(matches!(compile(&lit("")), Require::Unconstrained));
    assert!(matches!(compile(&lit("ab")), Require::Unconstrained));
}

#[test]
fn dot_star_is_unconstrained() {
    // `.*`: zero or more of any character
    let r = compile(&Pattern::Repeat(0, Box::new(Pattern::AnyChar)));
    assert!(matches!(r, Require::Unconstrained));
}

#[test]
fn empty_matching_alternation_is_unconstrained() {
    // `abc|`: one branch matches the empty string
    let r = compile(&Pattern::Alt(Box::new(lit("abc")), Box::new(lit(""))));
    assert!(matches!(r, Require::Unconstrained));
}

#[test]
fn adjacent_literals_contribute_boundary_trigrams() {
    // neither side alone spans a trigram, but the boundary does
    let r = compile(&Pattern::Concat(Box::new(lit("ab")), Box::new(lit("cd"))));
    let want: HashSet<u32> = [tri_of('a', 'b', 'c'), tri_of('b', 'c', 'd')].into_iter().collect();
    assert_eq!(exact_set(&r), want);
}

#[test]
fn concat_with_unconstrained_side_keeps_the_other() {
    // `hello.*`: the wildcard side must not drop the literal's trigrams
    let r = compile(
        &Pattern::Concat(
            Box::new(lit("hello")),
            Box::new(Pattern::Repeat(0, Box::new(Pattern::AnyChar))),
        ),
    );
    let want: HashSet<u32> =
        [tri_of('h', 'e', 'l'), tri_of('e', 'l', 'l'), tri_of('l', 'l', 'o')].into_iter().collect();
    assert_eq!(exact_set(&r), want);
}

#[test]
fn alternation_of_two_literals_is_an_or() {
    let r = compile(&Pattern::Alt(Box::new(lit("abc")), Box::new(lit("xyz"))));
    match r {
        Require::Or(l, rr) => {
            assert_eq!(exact_set(&l), [tri_of('a', 'b', 'c')].into_iter().collect());
            assert_eq!(exact_set(&rr), [tri_of('x', 'y', 'z')].into_iter().collect());
        },
        _ => panic!("expected an or node"),
    }
}

#[test]
fn plus_keeps_the_repeated_units_requirement() {
    // `(abc)+` must still require abc's trigram
    let r = compile(&Pattern::Repeat(1, Box::new(lit("abc"))));
    assert_eq!(exact_set(&r), [tri_of('a', 'b', 'c')].into_iter().collect());
}

#[test]
fn anychar_and_anything_are_unconstrained() {
    assert!(matches!(compile(&Pattern::AnyChar), Require::Unconstrained));
    assert!(matches!(compile(&Pattern::Anything), Require::Unconstrained));
}

#[test]
fn compiled_requirement_is_case_invariant() {
    let r1 = compile(&lit("Hello"));
    let r2 = compile(&lit("hELLO"));
    assert_eq!(exact_set(&r1), exact_set(&r2));
}

#[test]
fn nested_literal_concatenation_merges_into_one_literal() {
    // ((ab)(cd))(ef): every boundary-crossing trigram of "abcdef" is kept
    let inner = Pattern::Concat(Box::new(lit("ab")), Box::new(lit("cd")));
    let r = compile(&Pattern::Concat(Box::new(inner), Box::new(lit("ef"))));
    let want: HashSet<u32> = [
        tri_of('a', 'b', 'c'),
        tri_of('b', 'c', 'd'),
        tri_of('c', 'd', 'e'),
        tri_of('d', 'e', 'f'),
    ]
        .into_iter()
        .collect();
    assert_eq!(exact_set(&r), want);
}
