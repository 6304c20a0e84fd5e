//! Set algebra over posting lists.
//!
//! A posting list is the strictly increasing sequence of identifiers of the
//! documents that contain a given trigram.  Candidate sets are combined by
//! linear merge: intersection for AND nodes, union for OR nodes.

use vstd::prelude::*;

verus! {

/// A strictly increasing sequence: sorted and free of duplicates.
pub open spec fn strictly_sorted(s: Seq<u32>) -> bool {
    forall|i: int, j: int| 0 <= i < j < s.len() ==> s[i] < s[j]
}

/// Appending one element extends a sequence's membership by exactly that
/// element.
pub proof fn lemma_push_contains(s: Seq<u32>, v: u32)
    ensures
        forall|x: u32| #[trigger] s.push(v).contains(x) <==> (s.contains(x) || x == v),
{
    assert forall|x: u32| #[trigger] s.push(v).contains(x) implies (s.contains(x) || x == v) by {
        let k = choose|k: int| 0 <= k < s.push(v).len() && s.push(v)[k] == x;
        if k < s.len() {
            assert(s[k] == x);
        }
    }
    assert forall|x: u32| (s.contains(x) || x == v) implies #[trigger] s.push(v).contains(x) by {
        if s.contains(x) {
            let k = choose|k: int| 0 <= k < s.len() && s[k] == x;
            assert(s.push(v)[k] == x);
        } else {
            assert(s.push(v)[s.len() as int] == x);
        }
    }
}

/// Intersection of two posting lists by linear merge.
///
/// The result holds exactly the identifiers present in both inputs, in
/// strictly increasing order.
pub fn intersect(a: &Vec<u32>, b: &Vec<u32>) -> (r: Vec<u32>)
    requires
        strictly_sorted(a@),
        strictly_sorted(b@),
    ensures
        strictly_sorted(r@),
        forall|x: u32| r@.contains(x) <==> (a@.contains(x) && b@.contains(x)),
        r@.len() <= a@.len(),
{
    let mut r: Vec<u32> = Vec::new();
    let mut i: usize = 0;
    let mut j: usize = 0;
    while i < a.len() && j < b.len()
        invariant
            strictly_sorted(a@),
            strictly_sorted(b@),
            strictly_sorted(r@),
            i <= a.len(),
            j <= b.len(),
            r@.len() <= i,
            forall|x: u32|
                r@.contains(x) <==> (a@.take(i as int).contains(x) && b@.take(
                    j as int,
                ).contains(x)),
            i < a.len() ==> forall|k: int| 0 <= k < j ==> b@[k] < a@[i as int],
            j < b.len() ==> forall|k: int| 0 <= k < i ==> a@[k] < b@[j as int],
            r@.len() > 0 && i < a.len() ==> r@.last() < a@[i as int],
            r@.len() > 0 && j < b.len() ==> r@.last() < b@[j as int],
        decreases a.len() + b.len() - i - j,
    {
        proof {
            assert(a@.take(i + 1) =~= a@.take(i as int).push(a@[i as int]));
            assert(b@.take(j + 1) =~= b@.take(j as int).push(b@[j as int]));
            lemma_push_contains(a@.take(i as int), a@[i as int]);
            lemma_push_contains(b@.take(j as int), b@[j as int]);
        }
        let ghost r0 = r@;
        if a[i] == b[j] {
            r.push(a[i]);
            proof {
                lemma_push_contains(r0, a@[i as int]);
            }
            i = i + 1;
            j = j + 1;
        } else if a[i] < b[j] {
            i = i + 1;
        } else {
            j = j + 1;
        }
    }
    proof {
        assert forall|x: u32| (a@.contains(x) && b@.contains(x)) implies r@.contains(x) by {
            let ka = choose|k: int| 0 <= k < a@.len() && a@[k] == x;
            let kb = choose|k: int| 0 <= k < b@.len() && b@[k] == x;
            if i < a.len() {
                // the loop left because j reached b's end
                assert(b@.take(j as int) =~= b@);
                assert(a@[ka] == b@[kb]);
                assert(ka < i);
                assert(a@.take(i as int)[ka] == x);
            } else {
                assert(a@.take(i as int) =~= a@);
                if kb >= j {
                    assert(j < b@.len());
                    assert(a@[ka] < b@[j as int]);
                    assert(b@[j as int] <= b@[kb]);
                    assert(false);
                }
                assert(b@.take(j as int)[kb] == x);
            }
        }
        assert forall|x: u32| r@.contains(x) implies (a@.contains(x) && b@.contains(x)) by {
            let ka = choose|k: int| 0 <= k < i && a@.take(i as int)[k] == x;
            assert(a@[ka] == x);
            let kb = choose|k: int| 0 <= k < j && b@.take(j as int)[k] == x;
            assert(b@[kb] == x);
        }
    }
    r
}

/// Union of two posting lists by linear merge.
///
/// The result holds exactly the identifiers present in either input, in
/// strictly increasing order.
pub fn union(a: &Vec<u32>, b: &Vec<u32>) -> (r: Vec<u32>)
    requires
        strictly_sorted(a@),
        strictly_sorted(b@),
    ensures
        strictly_sorted(r@),
        forall|x: u32| r@.contains(x) <==> (a@.contains(x) || b@.contains(x)),
{
    let mut r: Vec<u32> = Vec::new();
    let mut i: usize = 0;
    let mut j: usize = 0;
    while i < a.len() && j < b.len()
        invariant
            strictly_sorted(a@),
            strictly_sorted(b@),
            strictly_sorted(r@),
            i <= a.len(),
            j <= b.len(),
            forall|x: u32|
                r@.contains(x) <==> (a@.take(i as int).contains(x) || b@.take(
                    j as int,
                ).contains(x)),
            r@.len() > 0 && i < a.len() ==> r@.last() < a@[i as int],
            r@.len() > 0 && j < b.len() ==> r@.last() < b@[j as int],
        decreases a.len() + b.len() - i - j,
    {
        proof {
            assert(a@.take(i + 1) =~= a@.take(i as int).push(a@[i as int]));
            assert(b@.take(j + 1) =~= b@.take(j as int).push(b@[j as int]));
            lemma_push_contains(a@.take(i as int), a@[i as int]);
            lemma_push_contains(b@.take(j as int), b@[j as int]);
        }
        let ghost r0 = r@;
        if a[i] == b[j] {
            r.push(a[i]);
            proof {
                lemma_push_contains(r0, a@[i as int]);
            }
            i = i + 1;
            j = j + 1;
        } else if a[i] < b[j] {
            r.push(a[i]);
            proof {
                lemma_push_contains(r0, a@[i as int]);
            }
            i = i + 1;
        } else {
            r.push(b[j]);
            proof {
                lemma_push_contains(r0, b@[j as int]);
            }
            j = j + 1;
        }
    }
    while i < a.len()
        invariant
            strictly_sorted(a@),
            strictly_sorted(b@),
            strictly_sorted(r@),
            i <= a.len(),
            j <= b.len(),
            j == b.len() || i == a.len(),
            forall|x: u32|
                r@.contains(x) <==> (a@.take(i as int).contains(x) || b@.take(
                    j as int,
                ).contains(x)),
            r@.len() > 0 && i < a.len() ==> r@.last() < a@[i as int],
            r@.len() > 0 && j < b.len() ==> r@.last() < b@[j as int],
        decreases a.len() - i,
    {
        proof {
            assert(a@.take(i + 1) =~= a@.take(i as int).push(a@[i as int]));
            lemma_push_contains(a@.take(i as int), a@[i as int]);
            lemma_push_contains(r@, a@[i as int]);
        }
        r.push(a[i]);
        i = i + 1;
    }
    while j < b.len()
        invariant
            strictly_sorted(a@),
            strictly_sorted(b@),
            strictly_sorted(r@),
            j <= b.len(),
            i == a.len(),
            forall|x: u32|
                r@.contains(x) <==> (a@.take(i as int).contains(x) || b@.take(
                    j as int,
                ).contains(x)),
            r@.len() > 0 && j < b.len() ==> r@.last() < b@[j as int],
        decreases b.len() - j,
    {
        proof {
            assert(b@.take(j + 1) =~= b@.take(j as int).push(b@[j as int]));
            lemma_push_contains(b@.take(j as int), b@[j as int]);
            lemma_push_contains(r@, b@[j as int]);
        }
        r.push(b[j]);
        j = j + 1;
    }
    proof {
        assert(a@.take(i as int) =~= a@);
        assert(b@.take(j as int) =~= b@);
    }
    r
}

/// Two strictly increasing sequences with the same members are the same
/// sequence.
pub proof fn lemma_sorted_unique(a: Seq<u32>, b: Seq<u32>)
    requires
        strictly_sorted(a),
        strictly_sorted(b),
        forall|x: u32| a.contains(x) <==> b.contains(x),
    ensures
        a == b,
    decreases a.len(),
{
    if a.len() == 0 {
        if b.len() > 0 {
            assert(b.contains(b[0]));
            assert(false);
        }
        assert(a =~= b);
    } else {
        assert(a.contains(a[0]));
        assert(b.contains(b[0]));
        let ka = choose|k: int| 0 <= k < a.len() && a[k] == b[0];
        let kb = choose|k: int| 0 <= k < b.len() && b[k] == a[0];
        assert(a[0] <= a[ka]);
        assert(b[0] <= b[kb]);
        assert(a[0] == b[0]);
        let at = a.subrange(1, a.len() as int);
        let bt = b.subrange(1, b.len() as int);
        assert forall|x: u32| at.contains(x) implies bt.contains(x) by {
            let k = choose|k: int| 0 <= k < at.len() && at[k] == x;
            assert(a[k + 1] == x);
            assert(a.contains(x));
            let m = choose|m: int| 0 <= m < b.len() && b[m] == x;
            assert(a[0] < x);
            assert(m != 0);
            assert(bt[m - 1] == x);
        }
        assert forall|x: u32| bt.contains(x) implies at.contains(x) by {
            let k = choose|k: int| 0 <= k < bt.len() && bt[k] == x;
            assert(b[k + 1] == x);
            assert(b.contains(x));
            let m = choose|m: int| 0 <= m < a.len() && a[m] == x;
            assert(b[0] < x);
            assert(m != 0);
            assert(at[m - 1] == x);
        }
        lemma_sorted_unique(at, bt);
        assert(a =~= seq![a[0]] + at);
        assert(b =~= seq![b[0]] + bt);
        assert(a =~= b);
    }
}

/// Intersecting a posting list with itself returns the same list: a strictly
/// increasing result whose members are exactly those in both copies of `l`
/// (what [`intersect`] ensures of its result on `(l, l)`) is `l` itself.
pub proof fn lemma_intersect_self(l: Seq<u32>, r: Seq<u32>)
    requires
        strictly_sorted(l),
        strictly_sorted(r),
        forall|x: u32| r.contains(x) <==> (l.contains(x) && l.contains(x)),
    ensures
        r == l,
{
    lemma_sorted_unique(r, l);
}

/// The union of two disjoint posting lists is as long as both together: a
/// strictly increasing result whose members are exactly those in `a` or in
/// `b` (what [`union`] ensures of its result) has length `a.len() + b.len()`
/// when no identifier is in both.
pub proof fn lemma_union_disjoint_len(a: Seq<u32>, b: Seq<u32>, r: Seq<u32>)
    requires
        strictly_sorted(a),
        strictly_sorted(b),
        strictly_sorted(r),
        forall|x: u32| r.contains(x) <==> (a.contains(x) || b.contains(x)),
        forall|x: u32| !(a.contains(x) && b.contains(x)),
    ensures
        r.len() == a.len() + b.len(),
{
    broadcast use vstd::seq_lib::seq_to_set_is_finite;

    lemma_sorted_no_duplicates(a);
    lemma_sorted_no_duplicates(b);
    lemma_sorted_no_duplicates(r);
    a.unique_seq_to_set();
    b.unique_seq_to_set();
    r.unique_seq_to_set();
    assert(r.to_set() =~= a.to_set() + b.to_set());
    assert(a.to_set().disjoint(b.to_set()));
    vstd::set_lib::lemma_set_disjoint_lens(a.to_set(), b.to_set());
}

/// A strictly increasing sequence holds no element twice.
pub proof fn lemma_sorted_no_duplicates(s: Seq<u32>)
    requires
        strictly_sorted(s),
    ensures
        s.no_duplicates(),
{
}

} // verus!
