//! Byte-wise lexicographic order on path strings, and the
//! ordered-then-deduplicated entry set that a manifest reduces to.

use vstd::prelude::*;
use crate::norm::{norm_spec, normalize_rel};

verus! {

/// The byte sequences held by a vector of byte strings.
pub open spec fn entry_views(v: Seq<Vec<u8>>) -> Seq<Seq<u8>> {
    Seq::new(v.len(), |i: int| v[i]@)
}

/// `a` sorts strictly before `b` in byte-wise lexicographic order.
pub open spec fn lex_lt(a: Seq<u8>, b: Seq<u8>) -> bool
    decreases a.len(),
{
    if b.len() == 0 {
        false
    } else if a.len() == 0 {
        true
    } else if a[0] < b[0] {
        true
    } else if a[0] > b[0] {
        false
    } else {
        lex_lt(a.skip(1), b.skip(1))
    }
}

pub proof fn lemma_lex_trichotomy(a: Seq<u8>, b: Seq<u8>)
    ensures
        lex_lt(a, b) || lex_lt(b, a) || a == b,
    decreases a.len(),
{
    if b.len() == 0 || a.len() == 0 {
        if a.len() == b.len() {
            assert(a =~= b);
        }
    } else if a[0] == b[0] {
        lemma_lex_trichotomy(a.skip(1), b.skip(1));
        if a.skip(1) == b.skip(1) {
            assert(a.skip(1).len() == a.len() - 1);
            assert(b.skip(1).len() == b.len() - 1);
            assert(a.len() == b.len());
            assert forall|i: int| 0 <= i < a.len() implies a[i] == b[i] by {
                if i >= 1 {
                    assert(a.skip(1)[i - 1] == a[i]);
                    assert(b.skip(1)[i - 1] == b[i]);
                }
            }
            assert(a =~= b);
        }
    }
}

pub proof fn lemma_lex_asymmetric(a: Seq<u8>, b: Seq<u8>)
    requires
        lex_lt(a, b),
    ensures
        !lex_lt(b, a),
        a != b,
    decreases a.len(),
{
    if a.len() > 0 && b.len() > 0 && a[0] == b[0] {
        lemma_lex_asymmetric(a.skip(1), b.skip(1));
        assert(a != b) by {
            if a == b {
                assert(a.skip(1) == b.skip(1));
            }
        }
    }
}

pub proof fn lemma_lex_transitive(a: Seq<u8>, b: Seq<u8>, c: Seq<u8>)
    requires
        lex_lt(a, b),
        lex_lt(b, c),
    ensures
        lex_lt(a, c),
    decreases a.len(),
{
    if a.len() > 0 && b.len() > 0 && c.len() > 0 && a[0] == b[0] && b[0] == c[0] {
        lemma_lex_transitive(a.skip(1), b.skip(1), c.skip(1));
    }
}

/// Compare two byte strings; true iff `a` sorts strictly before `b`.
pub fn bytes_lt(a: &Vec<u8>, b: &Vec<u8>) -> (r: bool)
    ensures
        r == lex_lt(a@, b@),
{
    proof {
        assert(a@.skip(0) =~= a@);
        assert(b@.skip(0) =~= b@);
    }
    let mut i: usize = 0;
    loop
        invariant
            i <= a.len(),
            i <= b.len(),
            lex_lt(a@, b@) == lex_lt(a@.skip(i as int), b@.skip(i as int)),
        decreases a.len() - i,
    {
        if i >= b.len() {
            assert(b@.skip(i as int).len() == 0);
            return false;
        }
        if i >= a.len() {
            assert(a@.skip(i as int).len() == 0);
            return true;
        }
        assert(a@.skip(i as int)[0] == a@[i as int]);
        assert(b@.skip(i as int)[0] == b@[i as int]);
        if a[i] < b[i] {
            return true;
        }
        if a[i] > b[i] {
            return false;
        }
        proof {
            assert(a@.skip(i as int).skip(1) =~= a@.skip(i as int + 1));
            assert(b@.skip(i as int).skip(1) =~= b@.skip(i as int + 1));
        }
        i = i + 1;
    }
}

/// True iff the two byte strings hold the same bytes.
pub fn bytes_eq(a: &Vec<u8>, b: &Vec<u8>) -> (r: bool)
    ensures
        r == (a@ == b@),
{
    if a.len() != b.len() {
        return false;
    }
    let mut i: usize = 0;
    while i < a.len()
        invariant
            i <= a.len(),
            a.len() == b.len(),
            forall|j: int| 0 <= j < i ==> a@[j] == b@[j],
        decreases a.len() - i,
    {
        if a[i] != b[i] {
            return false;
        }
        i = i + 1;
    }
    proof {
        assert(a@ =~= b@);
    }
    true
}

/// Each element sorts strictly before the next: sorted, with no duplicates.
pub open spec fn strictly_sorted(s: Seq<Seq<u8>>) -> bool {
    forall|i: int, j: int| 0 <= i < j < s.len() ==> lex_lt(s[i], s[j])
}

/// Insert `x` into a strictly sorted vector, keeping it sorted and
/// duplicate-free; a value already present is dropped, not doubled.
pub fn insert_sorted(v: &mut Vec<Vec<u8>>, x: Vec<u8>)
    requires
        strictly_sorted(entry_views(old(v)@)),
    ensures
        strictly_sorted(entry_views(final(v)@)),
        forall|y: Seq<u8>|
            entry_views(final(v)@).contains(y) <==> (entry_views(old(v)@).contains(y) || y == x@),
{
    let ghost s = entry_views(v@);
    let mut p: usize = 0;
    while p < v.len() && bytes_lt(&v[p], &x)
        invariant
            p <= v.len(),
            s == entry_views(v@),
            forall|i: int| 0 <= i < p ==> lex_lt(s[i], x@),
        decreases v.len() - p,
    {
        p = p + 1;
    }
    if p < v.len() && bytes_eq(&v[p], &x) {
        // already present
        assert(entry_views(v@).contains(x@)) by {
            assert(entry_views(v@)[p as int] == x@);
        }
        return ;
    }
    proof {
        if p < s.len() {
            lemma_lex_trichotomy(x@, s[p as int]);
            assert(lex_lt(x@, s[p as int]));
        }
    }
    v.insert(p, x);
    proof {
        assert(entry_views(v@) =~= s.insert(p as int, x@));
        s.insert_ensures(p as int, x@);
        let t = s.insert(p as int, x@);
        assert forall|i: int, j: int| 0 <= i < j < t.len() implies lex_lt(t[i], t[j]) by {
            if j < p {
                assert(t[i] == s[i] && t[j] == s[j]);
            } else if i < p && j == p {
                assert(t[i] == s[i] && t[j] == x@);
            } else if i < p && j > p {
                assert(t[i] == s[i] && t[j] == s[j - 1]);
                assert(i < j - 1 < s.len());
            } else if i == p && j > p {
                assert(t[i] == x@ && t[j] == s[j - 1]);
                if j - 1 > p {
                    lemma_lex_transitive(x@, s[p as int], s[j - 1]);
                }
            } else {
                assert(t[i] == s[i - 1] && t[j] == s[j - 1]);
            }
        }
        assert forall|y: Seq<u8>| t.contains(y) implies (s.contains(y) || y == x@) by {
            let k = choose|k: int| 0 <= k < t.len() && t[k] == y;
            if k < p {
                assert(s[k] == y);
            } else if k > p {
                assert(s[k - 1] == y);
            }
        }
        assert forall|y: Seq<u8>| s.contains(y) || y == x@ implies t.contains(y) by {
            if s.contains(y) {
                let k = choose|k: int| 0 <= k < s.len() && s[k] == y;
                if k < p {
                    assert(t[k] == y);
                } else {
                    assert(t[k + 1] == y);
                }
            } else {
                assert(t[p as int] == y);
            }
        }
    }
}

/// True iff some element of `v` holds the same bytes as `x`.
pub fn contains_bytes(v: &Vec<Vec<u8>>, x: &Vec<u8>) -> (r: bool)
    ensures
        r == entry_views(v@).contains(x@),
{
    let mut i: usize = 0;
    while i < v.len()
        invariant
            i <= v.len(),
            forall|j: int| 0 <= j < i ==> entry_views(v@)[j] != x@,
    decreases v.len() - i,
    {
        if bytes_eq(&v[i], x) {
            assert(entry_views(v@)[i as int] == x@);
            return true;
        }
        i = i + 1;
    }
    assert(!entry_views(v@).contains(x@)) by {
        if entry_views(v@).contains(x@) {
            let j = choose|j: int| 0 <= j < entry_views(v@).len() && entry_views(v@)[j] == x@;
            assert(entry_views(v@)[j] != x@);
        }
    }
    false
}

/// No two positions of a strictly sorted list hold the same value:
/// whatever collapses to one normalized entry appears exactly once.
pub proof fn lemma_sorted_all_distinct(s: Seq<Seq<u8>>, i: int, j: int)
    requires
        strictly_sorted(s),
        0 <= i < j < s.len(),
    ensures
        s[i] != s[j],
{
    lemma_lex_asymmetric(s[i], s[j]);
}

/// A strictly sorted list is determined by membership alone: two of them
/// holding the same values are the same list. So the entry list built
/// from a manifest is keyed by the normalized entry set and by nothing
/// else — a Legacy manifest and a Unified one describing the same set
/// yield the very same list.
pub proof fn lemma_sorted_unique_extensional(s1: Seq<Seq<u8>>, s2: Seq<Seq<u8>>)
    requires
        strictly_sorted(s1),
        strictly_sorted(s2),
        forall|e: Seq<u8>| s1.contains(e) <==> s2.contains(e),
    ensures
        s1 == s2,
    decreases s1.len(),
{
    if s1.len() == 0 {
        if s2.len() > 0 {
            assert(s2.contains(s2[0]));
            assert(s1.contains(s2[0]));
        }
        assert(s1 =~= s2);
    } else {
        assert(s1.contains(s1[0]));
        assert(s2.contains(s1[0]));
        assert(s2.len() > 0);
        let i = choose|i: int| 0 <= i < s2.len() && s2[i] == s1[0];
        if i > 0 {
            // s2's head would sort before s1's head and the other way round
            assert(lex_lt(s2[0], s1[0]));
            assert(s1.contains(s2[0]));
            let j = choose|j: int| 0 <= j < s1.len() && s1[j] == s2[0];
            if j == 0 {
                lemma_lex_asymmetric(s2[0], s1[0]);
            } else {
                assert(lex_lt(s1[0], s2[0]));
                lemma_lex_asymmetric(s1[0], s2[0]);
            }
        }
        assert(s1[0] == s2[0]);
        let t1 = s1.skip(1);
        let t2 = s2.skip(1);
        assert forall|a: int, b: int| 0 <= a < b < t1.len() implies lex_lt(t1[a], t1[b]) by {
            assert(t1[a] == s1[a + 1] && t1[b] == s1[b + 1]);
        }
        assert forall|a: int, b: int| 0 <= a < b < t2.len() implies lex_lt(t2[a], t2[b]) by {
            assert(t2[a] == s2[a + 1] && t2[b] == s2[b + 1]);
        }
        assert forall|e: Seq<u8>| t1.contains(e) == t2.contains(e) by {
            if t1.contains(e) {
                lemma_tail_membership(s1, s2, e);
            }
            if t2.contains(e) {
                lemma_tail_membership(s2, s1, e);
            }
        }
        lemma_sorted_unique_extensional(t1, t2);
        assert(s1 =~= s2) by {
            assert(forall|k: int| 1 <= k < s1.len() ==> s1[k] == t1[k - 1] && s2[k] == t2[k - 1]);
        }
    }
}

/// If `e` sits past the head of sorted `s1`, it sits past the equal head
/// of `s2` too.
proof fn lemma_tail_membership(s1: Seq<Seq<u8>>, s2: Seq<Seq<u8>>, e: Seq<u8>)
    requires
        strictly_sorted(s1),
        strictly_sorted(s2),
        forall|x: Seq<u8>| s1.contains(x) <==> s2.contains(x),
        s1.len() > 0,
        s2.len() > 0,
        s1[0] == s2[0],
        s1.skip(1).contains(e),
    ensures
        s2.skip(1).contains(e),
{
    let k = choose|k: int| 0 <= k < s1.skip(1).len() && s1.skip(1)[k] == e;
    assert(s1[k + 1] == e);
    assert(lex_lt(s1[0], e));
    lemma_lex_asymmetric(s1[0], e);
    assert(s1.contains(e));
    assert(s2.contains(e));
    let m = choose|m: int| 0 <= m < s2.len() && s2[m] == e;
    assert(m != 0);
    assert(s2.skip(1)[m - 1] == e);
}

/// `e` is a member of the normalized entry set of the raw list `raws`:
/// some raw entry normalizes to it, and it is non-empty.
pub open spec fn is_entry_of(raws: Seq<Seq<u8>>, e: Seq<u8>) -> bool {
    e.len() > 0 && exists|k: int| 0 <= k < raws.len() && norm_spec(raws[k]) == e
}

/// Normalize every raw entry, discard the empties, and collect the rest
/// into a sorted, duplicate-free entry list. Raw spellings that normalize
/// alike (`a/b`, `./a/b`, `a\b`) collapse to a single entry.
pub fn normalized_entries(raws: &Vec<Vec<u8>>) -> (r: Vec<Vec<u8>>)
    ensures
        strictly_sorted(entry_views(r@)),
        forall|e: Seq<u8>| entry_views(r@).contains(e) <==> is_entry_of(entry_views(raws@), e),
{
    let ghost all = entry_views(raws@);
    let mut r: Vec<Vec<u8>> = Vec::new();
    let mut k: usize = 0;
    assert(entry_views(r@) =~= Seq::<Seq<u8>>::empty());
    while k < raws.len()
        invariant
            k <= raws.len(),
            all == entry_views(raws@),
            strictly_sorted(entry_views(r@)),
            forall|e: Seq<u8>|
                entry_views(r@).contains(e) <==> is_entry_of(all.subrange(0, k as int), e),
        decreases raws.len() - k,
    {
        let ghost pre = all.subrange(0, k as int);
        let ghost now = all.subrange(0, k as int + 1);
        let n = normalize_rel(&raws[k]);
        assert(n@ == norm_spec(all[k as int]));
        if n.len() > 0 {
            insert_sorted(&mut r, n);
        }
        proof {
            assert forall|e: Seq<u8>| entry_views(r@).contains(e) implies is_entry_of(now, e) by {
                if is_entry_of(pre, e) {
                    let i = choose|i: int| 0 <= i < pre.len() && norm_spec(pre[i]) == e;
                    assert(now[i] == pre[i]);
                } else {
                    assert(norm_spec(now[k as int]) == e);
                }
            }
            assert forall|e: Seq<u8>| is_entry_of(now, e) implies entry_views(r@).contains(e) by {
                let i = choose|i: int| 0 <= i < now.len() && norm_spec(now[i]) == e;
                if i < k {
                    assert(pre[i] == now[i]);
                    assert(is_entry_of(pre, e));
                }
            }
        }
        k = k + 1;
    }
    proof {
        assert(all.subrange(0, all.len() as int) =~= all);
    }
    r
}

} // verus!
