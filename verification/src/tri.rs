//! Symbol simplification and trigram extraction.
//!
//! Every character is folded into one of 64 symbol classes; three consecutive
//! classes pack into an integer below `64^3`.  The set of packed trigrams of a
//! text is what the index stores per document and what queries are compiled
//! against.

use vstd::prelude::*;

verus! {

/// Case folding on Unicode scalar values: an ASCII lowercase letter becomes
/// its uppercase counterpart, everything else is unchanged.
pub open spec fn spec_fold_case(u: u32) -> u32 {
    if 97 <= u && u <= 122 {
        (u - 32) as u32
    } else {
        u
    }
}

/// The Unicode scalar values above 128 with the `White_Space` property.
pub open spec fn spec_high_whitespace(u: u32) -> bool {
    ||| u == 0x85
    ||| u == 0xA0
    ||| u == 0x1680
    ||| (0x2000 <= u && u <= 0x200A)
    ||| u == 0x2028
    ||| u == 0x2029
    ||| u == 0x202F
    ||| u == 0x205F
    ||| u == 0x3000
}

/// Symbol class of a case-folded scalar value.
///
/// Classes 0..8 are fixed buckets (control, line break, space, a few marks),
/// 8..33 map the punctuation-and-digit range one-to-one, 33..55 hold the
/// letters (a deliberately lossy bucketing: several rare letters share class
/// 54 to keep the alphabet at 64), and 55..64 hold the remaining brackets and
/// the generic non-ASCII class 63.
pub open spec fn spec_classify(u: u32) -> u8 {
    if u > 128 {
        if spec_high_whitespace(u) {
            2
        } else if u <= 159 {
            0
        } else {
            63
        }
    } else if u == 13 || u == 10 {
        1
    } else if u == 9 || u == 11 || u == 12 || u == 32 {
        2
    } else if u == 33 {
        3
    } else if u == 34 || u == 39 || u == 96 {
        4
    } else if u == 36 {
        5
    } else if u == 37 {
        6
    } else if u == 38 {
        7
    } else if 40 <= u && u <= 64 {
        (8 + (u - 40)) as u8
    } else if 65 <= u && u <= 73 {
        (33 + (u - 65)) as u8
    } else if u == 74 || u == 75 {
        54
    } else if 76 <= u && u <= 80 {
        (31 + (u - 65)) as u8
    } else if u == 81 {
        54
    } else if 82 <= u && u <= 87 {
        (30 + (u - 65)) as u8
    } else if u == 88 || u == 90 {
        54
    } else if u == 89 {
        53
    } else if u == 91 {
        55
    } else if u == 92 {
        56
    } else if u == 93 {
        57
    } else if u == 94 || u == 126 || u == 35 {
        58
    } else if u == 95 {
        59
    } else if 123 <= u && u <= 125 {
        (60 + (u - 123)) as u8
    } else {
        0
    }
}

/// The symbol class of a character: case folding followed by classification.
pub open spec fn spec_simplify(c: char) -> u8 {
    spec_classify(spec_fold_case(c as u32))
}

/// Every character falls in one of the 64 symbol classes.
pub proof fn lemma_simplify_bounded(c: char)
    ensures
        spec_simplify(c) < 64,
{
}

/// Maps a character to its symbol class, an integer below 64.
///
/// The mapping is total, pure, and case-insensitive for ASCII letters; all
/// characters above the ASCII range collapse into three classes (space-like,
/// control-like, generic high).
pub fn simplify(wut: char) -> (r: u8)
    ensures
        r == spec_simplify(wut),
        r < 64,
{
    let raw = wut as u32;
    let u = if 97 <= raw && raw <= 122 {
        raw - 32
    } else {
        raw
    };
    if u > 128 {
        if u == 0x85 || u == 0xA0 || u == 0x1680 || (0x2000 <= u && u <= 0x200A) || u == 0x2028
            || u == 0x2029 || u == 0x202F || u == 0x205F || u == 0x3000 {
            2
        } else if u <= 159 {
            0
        } else {
            63
        }
    } else if u == 13 || u == 10 {
        1
    } else if u == 9 || u == 11 || u == 12 || u == 32 {
        2
    } else if u == 33 {
        3
    } else if u == 34 || u == 39 || u == 96 {
        4
    } else if u == 36 {
        5
    } else if u == 37 {
        6
    } else if u == 38 {
        7
    } else if 40 <= u && u <= 64 {
        (8 + (u - 40)) as u8
    } else if 65 <= u && u <= 73 {
        (33 + (u - 65)) as u8
    } else if u == 74 || u == 75 {
        54
    } else if 76 <= u && u <= 80 {
        (31 + (u - 65)) as u8
    } else if u == 81 {
        54
    } else if 82 <= u && u <= 87 {
        (30 + (u - 65)) as u8
    } else if u == 88 || u == 90 {
        54
    } else if u == 89 {
        53
    } else if u == 91 {
        55
    } else if u == 92 {
        56
    } else if u == 93 {
        57
    } else if u == 94 || u == 126 || u == 35 {
        58
    } else if u == 95 {
        59
    } else if 123 <= u && u <= 125 {
        (60 + (u - 123)) as u8
    } else {
        0
    }
}

/// An ASCII letter and its uppercase form fall in the same symbol class.
///
/// `lower` ranges over `'a'..='z'`; `upper` is the character 32 scalar values
/// below it, its uppercase counterpart.
pub proof fn lemma_simplify_case_insensitive(lower: char, upper: char)
    requires
        97 <= lower as u32 && lower as u32 <= 122,
        upper as u32 + 32 == lower as u32,
    ensures
        spec_simplify(lower) == spec_simplify(upper),
{
}

/// One representative character per symbol class.
///
/// Not an inverse of `spec_simplify`: a class that several characters share
/// renders as one of them (or as a stand-in such as `'X'`).
pub open spec fn spec_explain(w: u8) -> char {
    if w == 0 {
        'X'
    } else if w == 1 {
        'N'
    } else if w == 2 {
        ' '
    } else if w == 3 {
        '!'
    } else if w == 4 {
        '"'
    } else if w == 5 {
        '$'
    } else if w == 6 {
        '%'
    } else if w == 7 {
        '&'
    } else if 8 <= w && w <= 32 {
        ((w - 8 + 40) as u8) as char
    } else if 33 <= w && w <= 41 {
        ((w - 33 + 97) as u8) as char
    } else if 42 <= w && w <= 46 {
        ((w - 42 + 108) as u8) as char
    } else if 47 <= w && w <= 52 {
        ((w - 47 + 114) as u8) as char
    } else if w == 53 {
        'y'
    } else if w == 54 {
        'X'
    } else if w == 55 {
        '['
    } else if w == 56 {
        '\\'
    } else if w == 57 {
        ']'
    } else if w == 58 {
        '#'
    } else if w == 59 {
        '_'
    } else if 60 <= w && w <= 62 {
        ((w - 60 + 123) as u8) as char
    } else if w == 63 {
        'U'
    } else {
        'D'
    }
}

/// Renders one symbol class as a representative character, for diagnostics.
pub fn explain(wut: u8) -> (r: char)
    ensures
        r == spec_explain(wut),
{
    if wut == 0 {
        'X'
    } else if wut == 1 {
        'N'
    } else if wut == 2 {
        ' '
    } else if wut == 3 {
        '!'
    } else if wut == 4 {
        '"'
    } else if wut == 5 {
        '$'
    } else if wut == 6 {
        '%'
    } else if wut == 7 {
        '&'
    } else if 8 <= wut && wut <= 32 {
        (wut - 8 + 40) as char
    } else if 33 <= wut && wut <= 41 {
        (wut - 33 + 97) as char
    } else if 42 <= wut && wut <= 46 {
        (wut - 42 + 108) as char
    } else if 47 <= wut && wut <= 52 {
        (wut - 47 + 114) as char
    } else if wut == 53 {
        'y'
    } else if wut == 54 {
        'X'
    } else if wut == 55 {
        '['
    } else if wut == 56 {
        '\\'
    } else if wut == 57 {
        ']'
    } else if wut == 58 {
        '#'
    } else if wut == 59 {
        '_'
    } else if 60 <= wut && wut <= 62 {
        (wut - 60 + 123) as char
    } else if wut == 63 {
        'U'
    } else {
        'D'
    }
}

/// Three symbol classes packed into one integer below `64^3`.
pub open spec fn spec_pack(a: u8, b: u8, c: u8) -> u32 {
    (4096 * (a as u32) + 64 * (b as u32) + (c as u32)) as u32
}

/// Packs a window of three symbol classes into a single trigram value.
pub fn pack(prev: [u8; 3]) -> (r: u32)
    ensures
        r == spec_pack(prev[0], prev[1], prev[2]),
{
    64 * 64 * (prev[0] as u32) + 64 * (prev[1] as u32) + (prev[2] as u32)
}

/// The three representative characters of a packed trigram, in order.
pub open spec fn spec_explain_packed(w: u32) -> Seq<char> {
    seq![
        spec_explain((w / 4096 % 64) as u8),
        spec_explain((w / 64 % 64) as u8),
        spec_explain((w % 64) as u8),
    ]
}

/// Relies on std's `String::push`: appends exactly one character at the end.
#[verifier::external_body]
fn push_char(s: &mut String, c: char)
    ensures
        final(s)@ == old(s)@.push(c),
{
    s.push(c);
}

/// Reconstructs an approximate three-character rendering of a packed trigram.
///
/// Lossy by design: each of the three classes renders as one representative
/// character, not necessarily the character the original text held.
pub fn explain_packed(wut: u32) -> (ret: String)
    ensures
        ret@ == spec_explain_packed(wut),
{
    let mut ret = String::new();
    push_char(&mut ret, explain((wut / 64 / 64 % 64) as u8));
    push_char(&mut ret, explain((wut / 64 % 64) as u8));
    push_char(&mut ret, explain((wut % 64) as u8));
    proof {
        assert(ret@ =~= spec_explain_packed(wut));
    }
    ret
}

/// The trigram formed by the three characters of `s` starting at `i`.
pub open spec fn spec_trigram_at(s: Seq<char>, i: int) -> u32 {
    spec_pack(spec_simplify(s[i]), spec_simplify(s[i + 1]), spec_simplify(s[i + 2]))
}

/// The set of distinct packed trigrams over every three-character window of
/// `s`; empty when `s` has fewer than three characters.
pub open spec fn spec_trigrams(s: Seq<char>) -> Set<u32> {
    Set::new(|t: u32| exists|i: int| 0 <= i && i + 2 < s.len() && t == spec_trigram_at(s, i))
}

/// The set of distinct trigrams of a text.
///
/// Slides a window of three simplified symbol classes across the input, one
/// character at a time; an input shorter than three characters yields the
/// empty set.  Callers must treat the empty set as "no filtering possible",
/// never as "matches nothing".
pub fn trigrams_full(input: &str) -> (found: std::collections::HashSet<u32>)
    ensures
        found@ == spec_trigrams(input@),
{
    broadcast use vstd::std_specs::hash::group_hash_axioms;

    let n = input.unicode_len();
    let mut found: std::collections::HashSet<u32> = std::collections::HashSet::new();
    if n < 3 {
        proof {
            assert(found@ =~= spec_trigrams(input@));
        }
        return found;
    }
    let mut prev: [u8; 3] = [0; 3];
    prev[0] = simplify(input.get_char(0));
    prev[1] = simplify(input.get_char(1));
    prev[2] = simplify(input.get_char(2));
    found.insert(pack(prev));
    proof {
        assert(spec_trigram_at(input@, 0) == spec_pack(prev[0], prev[1], prev[2]));
        assert forall|t: u32| found@.contains(t) implies exists|k: int|
            0 <= k && k + 2 < 3 && t == spec_trigram_at(input@, k) by {
            assert(0 <= 0 && 0 + 2 < 3 && t == spec_trigram_at(input@, 0));
        }
    }
    let mut i: usize = 3;
    while i < n
        invariant
            3 <= i <= n,
            n == input@.len(),
            vstd::std_specs::hash::obeys_key_model::<u32>(),
            prev[0] == spec_simplify(input@[i - 3]),
            prev[1] == spec_simplify(input@[i - 2]),
            prev[2] == spec_simplify(input@[i - 1]),
            forall|t: u32|
                found@.contains(t) <==> exists|k: int|
                    0 <= k && k + 2 < i && t == spec_trigram_at(input@, k),
        decreases n - i,
    {
        prev[0] = prev[1];
        prev[1] = prev[2];
        prev[2] = simplify(input.get_char(i));
        found.insert(pack(prev));
        proof {
            assert(spec_trigram_at(input@, i - 2) == spec_pack(
                prev[0],
                prev[1],
                prev[2],
            ));
        }
        i = i + 1;
    }
    proof {
        assert(found@ =~= spec_trigrams(input@));
    }
    found
}

/// A contiguous part of a text contributes no trigram that the whole text
/// does not also have.
pub proof fn lemma_trigrams_subrange(s: Seq<char>, lo: int, hi: int)
    requires
        0 <= lo <= hi <= s.len(),
    ensures
        forall|t: u32|
            spec_trigrams(s.subrange(lo, hi)).contains(t) ==> spec_trigrams(s).contains(t),
{
    let sub = s.subrange(lo, hi);
    assert forall|t: u32| spec_trigrams(sub).contains(t) implies spec_trigrams(s).contains(t) by {
        let i = choose|i: int| 0 <= i && i + 2 < sub.len() && t == spec_trigram_at(sub, i);
        assert(sub[i] == s[lo + i]);
        assert(sub[i + 1] == s[lo + i + 1]);
        assert(sub[i + 2] == s[lo + i + 2]);
        assert(spec_trigram_at(s, lo + i) == t);
        assert(0 <= lo + i && (lo + i) + 2 < s.len());
    }
}

/// Why a text was rejected as not being text: a NUL byte was found at
/// character `offset`, on 1-based line `line`.
#[derive(Debug, Clone, Copy, PartialEq, Eq, Structural)]
pub struct TextError {
    pub line: u64,
    pub offset: usize,
}

/// The symbol class of the character at `i`, with positions before the start
/// of the text padded by class 0.
pub open spec fn spec_padded_sym(s: Seq<char>, i: int) -> u8 {
    if i < 0 {
        0
    } else {
        spec_simplify(s[i])
    }
}

/// The trigram of the window ending at character `i`, with the window padded
/// by class 0 where it reaches before the start of the text.
pub open spec fn spec_padded_trigram_at(s: Seq<char>, i: int) -> u32 {
    spec_pack(spec_padded_sym(s, i - 2), spec_padded_sym(s, i - 1), spec_padded_sym(s, i))
}

/// The set of trigrams of every window ending at a character of `s`, the
/// windows at the start padded by class 0.
pub open spec fn spec_trigrams_padded(s: Seq<char>) -> Set<u32> {
    Set::new(|t: u32| exists|i: int| 0 <= i < s.len() && t == spec_padded_trigram_at(s, i))
}

/// How many line feeds `s` holds.
pub open spec fn spec_newlines(s: Seq<char>) -> nat
    decreases s.len(),
{
    if s.len() == 0 {
        0
    } else {
        spec_newlines(s.drop_last()) + if s.last() == '\n' {
            1nat
        } else {
            0nat
        }
    }
}

proof fn lemma_newlines_bound(s: Seq<char>)
    ensures
        spec_newlines(s) <= s.len(),
    decreases s.len(),
{
    if s.len() > 0 {
        lemma_newlines_bound(s.drop_last());
    }
}

/// The trigram set a document contributes to the index.
///
/// Unlike [`trigrams_full`], the window starts rolling from the first
/// character, padded by class 0, so even a short text yields trigrams.  A NUL
/// character marks the input as not being text and is rejected with the line
/// and character offset where it was found.
pub fn trigrams_for(input: &str) -> (r: Result<std::collections::HashSet<u32>, TextError>)
    requires
        input@.len() < 0xffff_ffff_ffff_ffff,
    ensures
        match r {
            Ok(found) => (forall|k: int| 0 <= k < input@.len() ==> input@[k] != '\0')
                && found@ == spec_trigrams_padded(input@),
            Err(e) => 0 <= e.offset < input@.len() && input@[e.offset as int] == '\0' && (forall|
                k: int,
            |
                0 <= k < e.offset ==> input@[k] != '\0') && e.line == 1 + spec_newlines(
                input@.take(e.offset as int),
            ),
        },
{
    broadcast use vstd::std_specs::hash::group_hash_axioms;

    let n = input.unicode_len();
    let mut prev: [u8; 3] = [0; 3];
    let mut line: u64 = 1;
    let mut ret: std::collections::HashSet<u32> = std::collections::HashSet::new();
    let mut i: usize = 0;
    while i < n
        invariant
            0 <= i <= n,
            n == input@.len(),
            n < 0xffff_ffff_ffff_ffff,
            vstd::std_specs::hash::obeys_key_model::<u32>(),
            prev[0] == spec_padded_sym(input@, i - 3),
            prev[1] == spec_padded_sym(input@, i - 2),
            prev[2] == spec_padded_sym(input@, i - 1),
            line == 1 + spec_newlines(input@.take(i as int)),
            forall|k: int| 0 <= k < i ==> input@[k] != '\0',
            forall|t: u32|
                ret@.contains(t) <==> exists|k: int|
                    0 <= k < i && t == spec_padded_trigram_at(input@, k),
        decreases n - i,
    {
        let c = input.get_char(i);
        proof {
            lemma_newlines_bound(input@.take(i as int));
            assert(input@.take(i + 1).drop_last() =~= input@.take(i as int));
            assert(input@.take(i + 1).last() == input@[i as int]);
        }
        if c == '\n' {
            line = line + 1;
        }
        if c == '\0' {
            return Err(TextError { line, offset: i });
        }
        prev[0] = prev[1];
        prev[1] = prev[2];
        prev[2] = simplify(c);
        ret.insert(pack(prev));
        proof {
            assert(spec_padded_trigram_at(input@, i as int) == spec_pack(
                prev[0],
                prev[1],
                prev[2],
            ));
        }
        i = i + 1;
    }
    proof {
        assert(ret@ =~= spec_trigrams_padded(input@));
    }
    Ok(ret)
}

/// Two texts of equal length whose characters differ at most by ASCII case
/// have the same trigram set.
///
/// At each position, either the characters are equal or one is the uppercase
/// form of the other (32 scalar values apart within the ASCII letters).
pub proof fn lemma_trigrams_case_insensitive(s: Seq<char>, t: Seq<char>)
    requires
        s.len() == t.len(),
        forall|i: int|
            0 <= i < s.len() ==> (s[i] == t[i] || (97 <= s[i] as u32 <= 122 && t[i] as u32 + 32
                == s[i] as u32) || (97 <= t[i] as u32 <= 122 && s[i] as u32 + 32 == t[i] as u32)),
    ensures
        spec_trigrams(s) == spec_trigrams(t),
{
    assert forall|i: int| 0 <= i < s.len() implies spec_simplify(s[i]) == spec_simplify(
        t[i],
    ) by {
        if s[i] != t[i] {
            if 97 <= s[i] as u32 <= 122 && t[i] as u32 + 32 == s[i] as u32 {
                lemma_simplify_case_insensitive(s[i], t[i]);
            } else {
                lemma_simplify_case_insensitive(t[i], s[i]);
            }
        }
    }
    assert forall|i: int| 0 <= i && i + 2 < s.len() implies spec_trigram_at(s, i)
        == spec_trigram_at(t, i) by {}
    assert(spec_trigrams(s) =~= spec_trigrams(t));
}

} // verus!
