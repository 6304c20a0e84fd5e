//! Symbol table and trigram extraction.

use std::collections::HashSet;
use trigram_index::tri::explain;
use trigram_index::tri::explain_packed;
use trigram_index::tri::pack;
use trigram_index::tri::simplify;
use trigram_index::tri::trigrams_for;
use trigram_index::tri::trigrams_full;

fn tri_of(a: char, b: char, c: char) -> u32 {
    pack([simplify(a), simplify(b), simplify(c)])
}

#[test]
fn simplify_case_insensitive_for_all_ascii_letters() {
    for lower in 'a'..='z' {
        let upper = ((lower as u8) - 32) as char;
        assert_eq!(simplify(lower), simplify(upper));
    }
}

#[test]
fn simplify_is_bounded_and_total() {
    for c in ['\0', '\t', '\n', ' ', '!', '0', 'A', 'z', '~', '\u{7f}', '\u{80}', '\u{e9}', '\u{4e2d}'] {
        assert!(simplify(c) < 64);
    }
}

#[test]
fn simplify_buckets_high_characters() {
    // non-breaking space is space-like, a C1 control is control-like,
    // any other non-ASCII character lands in the generic high class
    assert_eq!(simplify('\u{a0}'), simplify(' '));
    assert_eq!(simplify('\u{85}'), simplify('\u{2003}'));
    assert_eq!(simplify('\u{90}'), 0);
    assert_eq!(simplify('\u{e9}'), 63);
    assert_eq!(simplify('\u{4e2d}'), 63);
}

#[test]
fn extract_too_short_is_empty() {
    assert_eq!(trigrams_full(""), HashSet::new());
    assert_eq!(trigrams_full("ab"), HashSet::new());
}

#[test]
fn extract_three_chars_is_singleton() {
    let got = trigrams_full("abc");
    assert_eq!(got.len(), 1);
    assert!(got.contains(&tri_of('a', 'b', 'c')));
}

#[test]
fn extract_abcabc_has_three_trigrams() {
    let got = trigrams_full("abcabc");
    assert_eq!(got.len(), 3);
    assert!(got.contains(&tri_of('a', 'b', 'c')));
    assert!(got.contains(&tri_of('b', 'c', 'a')));
    assert!(got.contains(&tri_of('c', 'a', 'b')));
}

#[test]
fn extract_is_case_invariant() {
    assert_eq!(trigrams_full("abc"), trigrams_full("ABC"));
    assert_eq!(trigrams_full("Hello World"), trigrams_full("hELLO wORLD"));
}

#[test]
fn explain_packed_round_trips_letters() {
    assert_eq!(explain_packed(tri_of('a', 'b', 'c')), "abc");
    assert_eq!(explain_packed(tri_of('h', 'e', 'l')), "hel");
    // case collapses to the lowercase representative
    assert_eq!(explain_packed(tri_of('A', 'B', 'C')), "abc");
}

#[test]
fn explain_renders_one_char_per_class() {
    assert_eq!(explain(simplify('a')), 'a');
    assert_eq!(explain(simplify('(')), '(');
    assert_eq!(explain(simplify('_')), '_');
    // classes that several letters share render as a stand-in
    assert_eq!(explain(simplify('j')), 'X');
    assert_eq!(explain(simplify('q')), 'X');
    assert_eq!(explain(simplify('y')), 'y');
    assert_eq!(explain_packed(0), "XXX");
}

#[test]
fn trigrams_for_pads_the_leading_windows() {
    let got = trigrams_for("a").unwrap();
    assert_eq!(got.len(), 1);
    assert!(got.contains(&pack([0, 0, simplify('a')])));

    let got = trigrams_for("abc").unwrap();
    assert_eq!(got.len(), 3);
    assert!(got.contains(&pack([0, 0, simplify('a')])));
    assert!(got.contains(&pack([0, simplify('a'), simplify('b')])));
    assert!(got.contains(&tri_of('a', 'b', 'c')));
}

#[test]
fn trigrams_for_rejects_nul_with_line_and_offset() {
    let err = trigrams_for("ab\0c").unwrap_err();
    assert_eq!(err.line, 1);
    assert_eq!(err.offset, 2);

    let err = trigrams_for("x\ny\0").unwrap_err();
    assert_eq!(err.line, 2);
    assert_eq!(err.offset, 3);

    assert!(trigrams_for("no nulls here").is_ok());
}
