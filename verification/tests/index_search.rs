//! The index reader and the search evaluator, against index files built the
//! way the external writer would build them.

use std::collections::BTreeMap;
use trigram_index::index::Index;
use trigram_index::index::IndexError;
use trigram_index::posting::intersect;
use trigram_index::posting::union;
use trigram_index::query::compile;
use trigram_index::query::Pattern;
use trigram_index::search::and_results;
use trigram_index::search::evaluate;
use trigram_index::search::or_results;
use trigram_index::trigrams_full;

const MAGIC: u32 = 0x5849_4754;

fn push_le32(out: &mut Vec<u8>, v: u32) {
    out.extend_from_slice(&v.to_le_bytes());
}

/// Lays an index file out of sorted (trigram, posting list) pairs: header,
/// offset table, one lz4 block per trigram with the plain size prefixed.
fn build_index(postings: &[(u32, Vec<u32>)]) -> Vec<u8> {
    let mut blocks: Vec<Vec<u8>> = Vec::new();
    for (_, ids) in postings {
        let mut plain: Vec<u8> = Vec::new();
        for id in ids {
            push_le32(&mut plain, *id);
        }
        blocks.push(lz4::block::compress(&plain, None, true).unwrap());
    }
    let mut out: Vec<u8> = Vec::new();
    push_le32(&mut out, MAGIC);
    push_le32(&mut out, 1);
    push_le32(&mut out, 64);
    push_le32(&mut out, postings.len() as u32);
    let mut offset = 16 + 12 * postings.len() as u32;
    for ((tri, _), block) in postings.iter().zip(&blocks) {
        push_le32(&mut out, *tri);
        push_le32(&mut out, offset);
        push_le32(&mut out, block.len() as u32);
        offset += block.len() as u32;
    }
    for block in &blocks {
        out.extend_from_slice(block);
    }
    out
}

/// Indexes the given documents as the external writer would: each document's
/// trigram set feeds the posting list of every trigram it contains.
fn index_documents(docs: &[(u32, &str)]) -> Index {
    let mut map: BTreeMap<u32, Vec<u32>> = BTreeMap::new();
    for (id, text) in docs {
        let mut tris: Vec<u32> = trigrams_full(text).into_iter().collect();
        tris.sort();
        for t in tris {
            map.entry(t).or_default().push(*id);
        }
    }
    let postings: Vec<(u32, Vec<u32>)> = map.into_iter().collect();
    Index::from_bytes(build_index(&postings)).unwrap()
}

#[test]
fn open_rejects_a_truncated_file() {
    assert_eq!(Index::from_bytes(vec![0x54, 0x47]).unwrap_err(), IndexError::Truncated);
    // header promises more table entries than the file holds
    let mut bytes = build_index(&[(7, vec![1])]);
    bytes.truncate(20);
    assert_eq!(Index::from_bytes(bytes).unwrap_err(), IndexError::Truncated);
}

#[test]
fn open_rejects_wrong_magic_version_alphabet() {
    let good = build_index(&[(7, vec![1])]);

    let mut bad = good.clone();
    bad[0] = b'?';
    assert_eq!(Index::from_bytes(bad).unwrap_err(), IndexError::BadMagic);

    let mut bad = good.clone();
    bad[4] = 9;
    assert_eq!(Index::from_bytes(bad).unwrap_err(), IndexError::BadVersion);

    let mut bad = good.clone();
    bad[8] = 65;
    assert_eq!(Index::from_bytes(bad).unwrap_err(), IndexError::BadAlphabet);
}

#[test]
fn open_rejects_a_bad_table() {
    // entries out of order
    let bytes = build_index(&[(9, vec![1]), (3, vec![2])]);
    assert_eq!(Index::from_bytes(bytes).unwrap_err(), IndexError::BadTable);

    // block range pointing outside the file
    let mut bytes = build_index(&[(7, vec![1])]);
    bytes[24] = 0xFF;  // entry's block length, low byte
    assert_eq!(Index::from_bytes(bytes).unwrap_err(), IndexError::BadTable);
}

#[test]
fn lookup_of_an_absent_trigram_is_empty_not_an_error() {
    let idx = Index::from_bytes(build_index(&[(7, vec![1, 2, 3])])).unwrap();
    assert_eq!(idx.lookup(8).unwrap(), Vec::<u32>::new());
}

#[test]
fn lookup_decompresses_the_stored_posting_list() {
    let idx =
        Index::from_bytes(build_index(&[(7, vec![1, 5, 9]), (20, vec![2]), (90, vec![1, 2])]))
            .unwrap();
    assert_eq!(idx.lookup(7).unwrap(), vec![1, 5, 9]);
    assert_eq!(idx.lookup(20).unwrap(), vec![2]);
    assert_eq!(idx.lookup(90).unwrap(), vec![1, 2]);
}

#[test]
fn lookup_reports_a_corrupt_block() {
    let mut bytes = build_index(&[(7, vec![1, 2, 3])]);
    let data_start = 16 + 12;
    for b in bytes[data_start..].iter_mut() {
        *b = 0xAB;
    }
    let idx = Index::from_bytes(bytes).unwrap();
    assert_eq!(idx.lookup(7).unwrap_err(), IndexError::CorruptBlock(7));
}

#[test]
fn intersecting_a_posting_list_with_itself_is_identity() {
    let l: Vec<u32> = vec![2, 3, 5, 8, 13];
    assert_eq!(intersect(&l, &l), l);
}

#[test]
fn union_of_disjoint_lists_has_the_sum_of_lengths() {
    let a: Vec<u32> = vec![1, 4, 9];
    let b: Vec<u32> = vec![2, 3, 10, 11];
    let u = union(&a, &b);
    assert_eq!(u.len(), a.len() + b.len());
    assert_eq!(u, vec![1, 2, 3, 4, 9, 10, 11]);
}

#[test]
fn and_with_unconstrained_returns_the_other_side_unchanged() {
    let l: Vec<u32> = vec![3, 7];
    assert_eq!(and_results(None, Some(l.clone())), Some(l.clone()));
    assert_eq!(and_results(Some(l.clone()), None), Some(l.clone()));
    assert_eq!(and_results(None, None), None);
    assert_eq!(or_results(None, Some(l)), None);
}

#[test]
fn end_to_end_hello_query() {
    let idx = index_documents(&[(1, "hello world"), (2, "goodbye world"), (3, "hello there")]);
    let req = compile(&Pattern::Literal("hello".chars().collect()));
    assert_eq!(evaluate(&req, &idx).unwrap(), Some(vec![1, 3]));

    let req = compile(&Pattern::Literal("world".chars().collect()));
    assert_eq!(evaluate(&req, &idx).unwrap(), Some(vec![1, 2]));

    // `hello|goodbye` unions the branches
    let req = compile(
        &Pattern::Alt(
            Box::new(Pattern::Literal("goodbye".chars().collect())),
            Box::new(Pattern::Literal("there".chars().collect())),
        ),
    );
    assert_eq!(evaluate(&req, &idx).unwrap(), Some(vec![2, 3]));

    // an unconstrained query filters nothing out
    let req = compile(&Pattern::Repeat(0, Box::new(Pattern::AnyChar)));
    assert_eq!(evaluate(&req, &idx).unwrap(), None);

    // a literal found nowhere yields no candidates
    let req = compile(&Pattern::Literal("zzz".chars().collect()));
    assert_eq!(evaluate(&req, &idx).unwrap(), Some(vec![]));
}
