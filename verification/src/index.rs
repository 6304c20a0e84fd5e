//! Read-only view over an on-disk trigram index.
//!
//! The index file holds a fixed header (magic, version, alphabet size), an
//! offset table mapping each stored trigram to a byte range, and one
//! compressed block per stored trigram whose plain form is the posting list:
//! the strictly increasing document identifiers, four little-endian bytes
//! each.  Only the block of the trigram being looked up is ever decompressed.

use crate::posting::strictly_sorted;
use vstd::prelude::*;

verus! {

/// First four bytes of every index file.
pub const MAGIC: u32 = 0x5849_4754;

/// The one supported format version.
pub const VERSION: u32 = 1;

/// The symbol alphabet the index was built for.
pub const ALPHABET: u32 = 64;

/// Why an index file was rejected or a lookup failed.
#[derive(Debug, Clone, Copy, PartialEq, Eq, Structural)]
pub enum IndexError {
    /// The file is too short for its own header and offset table.
    Truncated,
    /// The file does not start with the index magic number.
    BadMagic,
    /// The format version is not the supported one.
    BadVersion,
    /// The trigram alphabet size differs from the one this reader handles.
    BadAlphabet,
    /// An offset-table entry is out of order or points outside the file.
    BadTable,
    /// The block of this trigram failed to decompress or decode.
    CorruptBlock(u32),
}

/// The little-endian 32-bit value at byte offset `i`.
pub open spec fn le32(s: Seq<u8>, i: int) -> u32 {
    ((s[i] as u32) + (s[i + 1] as u32) * 0x100 + (s[i + 2] as u32) * 0x10000 + (s[i + 3] as u32)
        * 0x1000000) as u32
}

/// Number of offset-table entries the header announces.
pub open spec fn n_entries(s: Seq<u8>) -> int {
    le32(s, 12) as int
}

/// The trigram of offset-table entry `k`.
pub open spec fn entry_tri(s: Seq<u8>, k: int) -> u32 {
    le32(s, 16 + 12 * k)
}

/// The block start of offset-table entry `k`.
pub open spec fn entry_off(s: Seq<u8>, k: int) -> u32 {
    le32(s, 16 + 12 * k + 4)
}

/// The block length of offset-table entry `k`.
pub open spec fn entry_len(s: Seq<u8>, k: int) -> u32 {
    le32(s, 16 + 12 * k + 8)
}

/// The header is intact and the offset table fits in the file.
pub open spec fn header_ok(s: Seq<u8>) -> bool {
    &&& s.len() >= 16
    &&& le32(s, 0) == MAGIC
    &&& le32(s, 4) == VERSION
    &&& le32(s, 8) == ALPHABET
    &&& 16 + 12 * n_entries(s) <= s.len()
}

/// Entries are strictly ordered by trigram and every block range lies within
/// the file.
pub open spec fn table_ok(s: Seq<u8>) -> bool {
    &&& forall|k1: int, k2: int|
        0 <= k1 < k2 < n_entries(s) ==> #[trigger] entry_tri(s, k1) < #[trigger] entry_tri(s, k2)
    &&& forall|k: int|
        0 <= k < n_entries(s) ==> #[trigger] entry_off(s, k) + entry_len(s, k) <= s.len()
}

/// A byte sequence that is a readable index file.
pub open spec fn index_ok(s: Seq<u8>) -> bool {
    header_ok(s) && table_ok(s)
}

/// The error [`Index::from_bytes`] reports for a malformed file: the checks
/// run in this order and the first to fail names the error.
pub open spec fn spec_open_err(s: Seq<u8>) -> IndexError {
    if s.len() < 16 {
        IndexError::Truncated
    } else if le32(s, 0) != MAGIC {
        IndexError::BadMagic
    } else if le32(s, 4) != VERSION {
        IndexError::BadVersion
    } else if le32(s, 8) != ALPHABET {
        IndexError::BadAlphabet
    } else if 16 + 12 * n_entries(s) > s.len() {
        IndexError::Truncated
    } else {
        IndexError::BadTable
    }
}

/// What `lz4::block::decompress` yields on a size-prefixed block, `None` when
/// it rejects the block.  Decompression reads nothing but the block bytes, so
/// both outcomes are functions of them alone.
pub uninterp spec fn lz4_plain(block: Seq<u8>) -> Option<Seq<u8>>;

/// Relies on `lz4::block::decompress` with the plain size taken from the
/// block's four-byte prefix: the result, success or failure alike, depends on
/// the block bytes alone.
#[verifier::external_body]
fn lz4_decompress(block: &Vec<u8>) -> (r: Option<Vec<u8>>)
    ensures
        match r {
            Some(plain) => lz4_plain(block@) == Some(plain@),
            None => lz4_plain(block@) is None,
        },
{
    lz4::block::decompress(block.as_slice(), None).ok()
}

/// The posting list a plain (decompressed) block encodes: one little-endian
/// 32-bit document identifier per four bytes.
pub open spec fn block_ids(b: Seq<u8>) -> Seq<u32> {
    Seq::new((b.len() / 4) as nat, |k: int| le32(b, 4 * k))
}

/// The posting list of a plain block, or `None` when the block is corrupt:
/// not a whole number of identifiers, or identifiers out of order.
pub open spec fn spec_postings(b: Seq<u8>) -> Option<Seq<u32>> {
    if b.len() % 4 == 0 && strictly_sorted(block_ids(b)) {
        Some(block_ids(b))
    } else {
        None
    }
}

/// Whether the offset table has an entry for trigram `t`.
pub open spec fn spec_has_entry(s: Seq<u8>, t: u32) -> bool {
    exists|k: int| 0 <= k < n_entries(s) && entry_tri(s, k) == t
}

/// The table index of trigram `t`'s entry.
pub open spec fn spec_entry_of(s: Seq<u8>, t: u32) -> int {
    choose|k: int| 0 <= k < n_entries(s) && entry_tri(s, k) == t
}

/// The compressed block bytes of trigram `t`'s entry.
pub open spec fn spec_block(s: Seq<u8>, t: u32) -> Seq<u8> {
    let k = spec_entry_of(s, t);
    s.subrange(entry_off(s, k) as int, entry_off(s, k) + entry_len(s, k))
}

/// The posting list stored for trigram `t`: the empty list when the table has
/// no entry for `t`, and `None` when its block is corrupt.
pub open spec fn spec_lookup(s: Seq<u8>, t: u32) -> Option<Seq<u32>> {
    if !spec_has_entry(s, t) {
        Some(Seq::<u32>::empty())
    } else {
        match lz4_plain(spec_block(s, t)) {
            Some(plain) => spec_postings(plain),
            None => None,
        }
    }
}

/// Reads the little-endian 32-bit value at byte offset `i`.
fn read_le32(b: &Vec<u8>, i: usize) -> (r: u32)
    requires
        i + 4 <= b@.len(),
    ensures
        r == le32(b@, i as int),
{
    let total = b.len();
    (b[i] as u32) + (b[i + 1] as u32) * 0x100 + (b[i + 2] as u32) * 0x10000 + (b[i + 3] as u32)
        * 0x1000000
}

/// Copies the byte range `[start, end)` out of `b`.
fn copy_range(b: &Vec<u8>, start: usize, end: usize) -> (r: Vec<u8>)
    requires
        start <= end <= b@.len(),
    ensures
        r@ == b@.subrange(start as int, end as int),
{
    let mut r: Vec<u8> = Vec::new();
    let mut i: usize = start;
    while i < end
        invariant
            start <= i <= end <= b@.len(),
            r@ =~= b@.subrange(start as int, i as int),
        decreases end - i,
    {
        r.push(b[i]);
        proof {
            assert(r@ =~= b@.subrange(start as int, i + 1));
        }
        i = i + 1;
    }
    proof {
        assert(r@ =~= b@.subrange(start as int, end as int));
    }
    r
}

/// Decodes a plain block into its posting list; `None` when the block is not
/// a whole number of identifiers or the identifiers are not strictly
/// increasing.
#[verifier::rlimit(100)]
fn parse_postings(b: &Vec<u8>) -> (r: Option<Vec<u32>>)
    ensures
        match r {
            Some(ids) => spec_postings(b@) == Some(ids@),
            None => spec_postings(b@) is None,
        },
{
    let n = b.len();
    if n % 4 != 0 {
        return None;
    }
    let count = n / 4;
    let mut ids: Vec<u32> = Vec::new();
    let mut k: usize = 0;
    while k < count
        invariant
            n == b@.len(),
            n % 4 == 0,
            count == n / 4,
            k <= count,
            ids@ =~= block_ids(b@).take(k as int),
            forall|m: int| 0 < m < k ==> ids@[m - 1] < #[trigger] ids@[m],
        decreases count - k,
    {
        let d = read_le32(b, 4 * k);
        proof {
            assert(block_ids(b@)[k as int] == le32(b@, 4 * (k as int)));
        }
        if k > 0 && ids[k - 1] >= d {
            proof {
                assert(block_ids(b@)[k - 1] == ids@[k - 1]);
                assert(!strictly_sorted(block_ids(b@)));
            }
            return None;
        }
        ids.push(d);
        proof {
            assert(ids@ =~= block_ids(b@).take(k + 1));
        }
        k = k + 1;
    }
    proof {
        assert(ids@ =~= block_ids(b@));
        assert forall|i: int, j: int| 0 <= i < j < ids@.len() implies ids@[i] < ids@[j] by {
            lemma_prefix_sorted(ids@, i, j);
        }
    }
    Some(ids)
}

/// In a sequence where each element exceeds its predecessor, any earlier
/// element is below any later one.
proof fn lemma_prefix_sorted(s: Seq<u32>, i: int, j: int)
    requires
        forall|k: int| 0 < k < s.len() ==> s[k - 1] < #[trigger] s[k],
        0 <= i < j < s.len(),
    ensures
        s[i] < s[j],
    decreases j - i,
{
    if i + 1 < j {
        lemma_prefix_sorted(s, i + 1, j);
    }
}

/// A read-only, validated index: the raw file bytes and the entry count its
/// header announced.
#[derive(Debug)]
pub struct Index {
    bytes: Vec<u8>,
    n: usize,
}

impl View for Index {
    type V = Seq<u8>;

    closed spec fn view(&self) -> Seq<u8> {
        self.bytes@
    }
}

impl Index {
    /// The held bytes are a readable index file and `n` caches its entry
    /// count.
    pub closed spec fn wf(self) -> bool {
        index_ok(self.bytes@) && self.n == n_entries(self.bytes@)
    }

    /// Validates a byte image of an index file and wraps it for lookups.
    ///
    /// Accepts exactly the well-formed files; a missing or unreadable file is
    /// the caller's error before these bytes exist.  The checks run in order
    /// — length, magic, version, alphabet, table size, table entries — and
    /// the first to fail names the error returned.
    #[verifier::rlimit(100)]
    pub fn from_bytes(bytes: Vec<u8>) -> (r: Result<Index, IndexError>)
        ensures
            r is Ok <==> index_ok(bytes@),
            r matches Ok(idx) ==> idx.wf() && idx@ == bytes@,
            r matches Err(e) ==> e == spec_open_err(bytes@),
    {
        let len = bytes.len();
        if len < 16 {
            return Err(IndexError::Truncated);
        }
        if read_le32(&bytes, 0) != MAGIC {
            return Err(IndexError::BadMagic);
        }
        if read_le32(&bytes, 4) != VERSION {
            return Err(IndexError::BadVersion);
        }
        if read_le32(&bytes, 8) != ALPHABET {
            return Err(IndexError::BadAlphabet);
        }
        let n32 = read_le32(&bytes, 12);
        if 16u64 + 12u64 * (n32 as u64) > (len as u64) {
            return Err(IndexError::Truncated);
        }
        let n = n32 as usize;
        let mut k: usize = 0;
        let mut prev: u32 = 0;
        while k < n
            invariant
                header_ok(bytes@),
                len == bytes@.len(),
                n == n_entries(bytes@),
                16 + 12 * n <= bytes@.len(),
                k <= n,
                k > 0 ==> prev == entry_tri(bytes@, k - 1),
                forall|m1: int, m2: int|
                    0 <= m1 < m2 < k ==> #[trigger] entry_tri(bytes@, m1) < #[trigger] entry_tri(
                        bytes@,
                        m2,
                    ),
                forall|m: int|
                    0 <= m < k ==> #[trigger] entry_off(bytes@, m) + entry_len(bytes@, m)
                        <= bytes@.len(),
            decreases n - k,
        {
            let base = 16 + 12 * k;
            let tri = read_le32(&bytes, base);
            let off = read_le32(&bytes, base + 4);
            let blen = read_le32(&bytes, base + 8);
            proof {
                assert(tri == entry_tri(bytes@, k as int));
                assert(off == entry_off(bytes@, k as int));
                assert(blen == entry_len(bytes@, k as int));
            }
            if (off as u64) + (blen as u64) > (len as u64) {
                proof {
                    assert(entry_off(bytes@, k as int) + entry_len(bytes@, k as int)
                        > bytes@.len());
                    assert(!table_ok(bytes@));
                }
                return Err(IndexError::BadTable);
            }
            if k > 0 && prev >= tri {
                proof {
                    assert(entry_tri(bytes@, k - 1) >= entry_tri(bytes@, k as int));
                    assert(!table_ok(bytes@));
                }
                return Err(IndexError::BadTable);
            }
            proof {
                assert forall|m1: int, m2: int| 0 <= m1 < m2 < k + 1 implies entry_tri(
                    bytes@,
                    m1,
                ) < entry_tri(bytes@, m2) by {
                    if m2 == k as int && m1 < k - 1 {
                        assert(entry_tri(bytes@, m1) < entry_tri(bytes@, k - 1));
                    }
                }
            }
            prev = tri;
            k = k + 1;
        }
        Ok(Index { bytes, n })
    }

    /// The posting list of trigram `t`.
    ///
    /// A trigram absent from the offset table yields the empty list — a
    /// normal result, not an error.  Only the one block the entry points at
    /// is decompressed; a block that fails to decompress or decode is
    /// reported as corrupt, with the trigram whose lookup hit it.
    #[verifier::rlimit(60)]
    pub fn lookup(&self, t: u32) -> (r: Result<Vec<u32>, IndexError>)
        requires
            self.wf(),
        ensures
            r is Ok <==> spec_lookup(self@, t) is Some,
            r matches Ok(ids) ==> spec_lookup(self@, t) == Some(ids@) && strictly_sorted(ids@),
            r matches Err(e) ==> e == IndexError::CorruptBlock(t),
    {
        let ghost s = self.bytes@;
        let total = self.bytes.len();
        let mut lo: usize = 0;
        let mut hi: usize = self.n;
        while lo < hi
            invariant
                self.wf(),
                s == self.bytes@,
                total == s.len(),
                lo <= hi <= self.n,
                forall|m: int| 0 <= m < lo ==> entry_tri(s, m) < t,
                forall|m: int| hi <= m < n_entries(s) ==> entry_tri(s, m) > t,
            decreases hi - lo,
        {
            let mid = lo + (hi - lo) / 2;
            let tri = read_le32(&self.bytes, 16 + 12 * mid);
            if tri < t {
                proof {
                    assert forall|m: int| 0 <= m < mid + 1 implies entry_tri(s, m) < t by {
                        if m < mid {
                            assert(entry_tri(s, m) < entry_tri(s, mid as int));
                        }
                    }
                }
                lo = mid + 1;
            } else if tri > t {
                proof {
                    assert forall|m: int| mid <= m < n_entries(s) implies entry_tri(s, m) > t by {
                        if m > mid {
                            assert(entry_tri(s, mid as int) < entry_tri(s, m));
                        }
                    }
                }
                hi = mid;
            } else {
                proof {
                    assert(spec_has_entry(s, t));
                    let kk = spec_entry_of(s, t);
                    if kk < mid {
                        assert(entry_tri(s, kk) < entry_tri(s, mid as int));
                    }
                    if kk > mid {
                        assert(entry_tri(s, mid as int) < entry_tri(s, kk));
                    }
                    assert(kk == mid);
                }
                let start = off_to_usize(read_le32(&self.bytes, 16 + 12 * mid + 4));
                let blen = off_to_usize(read_le32(&self.bytes, 16 + 12 * mid + 8));
                let block = copy_range(&self.bytes, start, start + blen);
                proof {
                    assert(block@ == spec_block(s, t));
                }
                let plain = match lz4_decompress(&block) {
                    Some(plain) => plain,
                    None => {
                        return Err(IndexError::CorruptBlock(t));
                    },
                };
                let ids = match parse_postings(&plain) {
                    Some(ids) => ids,
                    None => {
                        return Err(IndexError::CorruptBlock(t));
                    },
                };
                return Ok(ids);
            }
        }
        proof {
            assert forall|k: int| 0 <= k < n_entries(s) implies entry_tri(s, k) != t by {}
            assert(!spec_has_entry(s, t));
        }
        Ok(Vec::new())
    }
}

/// Widens a table offset to an indexable size.
fn off_to_usize(x: u32) -> (r: usize)
    ensures
        r == x as int,
{
    x as usize
}

} // verus!
