//! Canonicalizes a manifest-supplied relative path string (held as UTF-8
//! bytes) into the comparable form that keys the manifest entry set:
//! surrounding whitespace trimmed, backslash separators turned into forward
//! slashes, a single leading `./` stripped, and one trailing `/` stripped
//! unless that would leave the path empty.

use vstd::prelude::*;

verus! {

pub const SLASH: u8 = 47;

pub const BACKSLASH: u8 = 92;

pub const DOT: u8 = 46;

/// ASCII whitespace, as trimmed from the ends of a raw entry.
pub open spec fn is_space(b: u8) -> bool {
    b == 32 || b == 9 || b == 10 || b == 13 || b == 11 || b == 12
}

/// Index of the first byte from `i` on that is not whitespace (or the length).
pub open spec fn first_non_space(s: Seq<u8>, i: int) -> int
    decreases s.len() - i,
{
    if i < 0 || i >= s.len() {
        s.len() as int
    } else if is_space(s[i]) {
        first_non_space(s, i + 1)
    } else {
        i
    }
}

/// One past the last byte before `i` that is not whitespace (or 0).
pub open spec fn last_non_space(s: Seq<u8>, i: int) -> int
    decreases i,
{
    if i <= 0 || i > s.len() {
        0
    } else if is_space(s[i - 1]) {
        last_non_space(s, i - 1)
    } else {
        i
    }
}

pub open spec fn trim_spec(s: Seq<u8>) -> Seq<u8> {
    let lo = first_non_space(s, 0);
    let hi = last_non_space(s, s.len() as int);
    if lo <= hi {
        s.subrange(lo, hi)
    } else {
        Seq::empty()
    }
}

/// Every backslash replaced by a forward slash.
pub open spec fn replace_sep(s: Seq<u8>) -> Seq<u8> {
    s.map_values(|b: u8| if b == BACKSLASH { SLASH } else { b })
}

pub open spec fn starts_dot_slash(s: Seq<u8>) -> bool {
    s.len() >= 2 && s[0] == DOT && s[1] == SLASH
}

/// The normalized form of a raw entry: trim, replace separators, strip a
/// single leading `./`, strip one trailing `/` unless only it remains.
pub open spec fn norm_spec(s: Seq<u8>) -> Seq<u8> {
    let t = replace_sep(trim_spec(s));
    let u = if starts_dot_slash(t) {
        t.skip(2)
    } else {
        t
    };
    if u.len() > 1 && u[u.len() - 1] == SLASH {
        u.drop_last()
    } else {
        u
    }
}

proof fn lemma_first_non_space_bounds(s: Seq<u8>, i: int)
    requires
        0 <= i <= s.len(),
    ensures
        i <= first_non_space(s, i) <= s.len(),
        forall|j: int| i <= j < first_non_space(s, i) ==> is_space(s[j]),
        first_non_space(s, i) < s.len() ==> !is_space(s[first_non_space(s, i)]),
    decreases s.len() - i,
{
    if i < s.len() && is_space(s[i]) {
        lemma_first_non_space_bounds(s, i + 1);
    }
}

proof fn lemma_last_non_space_bounds(s: Seq<u8>, i: int)
    requires
        0 <= i <= s.len(),
    ensures
        0 <= last_non_space(s, i) <= i,
        forall|j: int| last_non_space(s, i) <= j < i ==> is_space(s[j]),
        last_non_space(s, i) > 0 ==> !is_space(s[last_non_space(s, i) - 1]),
    decreases i,
{
    if i > 0 && is_space(s[i - 1]) {
        lemma_last_non_space_bounds(s, i - 1);
    }
}

/// Normalize a raw relative path, as described in the module comment.
/// Returns the empty vector for entries that normalize to nothing; callers
/// treat such an entry as "skip", never as an error.
pub fn normalize_rel(s: &Vec<u8>) -> (r: Vec<u8>)
    ensures
        r@ == norm_spec(s@),
{
    proof {
        lemma_first_non_space_bounds(s@, 0);
        lemma_last_non_space_bounds(s@, s@.len() as int);
    }
    let mut lo: usize = 0;
    while lo < s.len() && is_space_b(s[lo])
        invariant
            0 <= lo <= s.len(),
            first_non_space(s@, 0) == first_non_space(s@, lo as int),
        decreases s.len() - lo,
    {
        lo = lo + 1;
    }
    assert(lo as int == first_non_space(s@, lo as int));
    let mut hi: usize = s.len();
    while hi > 0 && is_space_b(s[hi - 1])
        invariant
            0 <= hi <= s.len(),
            last_non_space(s@, s@.len() as int) == last_non_space(s@, hi as int),
        decreases hi,
    {
        hi = hi - 1;
    }
    assert(hi as int == last_non_space(s@, hi as int));
    if lo > hi {
        // all whitespace
        let r: Vec<u8> = Vec::new();
        assert(norm_spec(s@) =~= Seq::<u8>::empty());
        return r;
    }
    let ghost t = replace_sep(trim_spec(s@));
    // strip a single leading "./" (a leading ".\" becomes "./" after the
    // separator replacement, so both count)
    let lo2: usize = if hi - lo >= 2 && s[lo] == DOT && (s[lo + 1] == SLASH || s[lo + 1]
        == BACKSLASH) {
        lo + 2
    } else {
        lo
    };
    assert(starts_dot_slash(t) <==> lo2 == lo + 2) by {
        assert(t.len() == hi - lo);
        if t.len() >= 2 {
            assert(t[0] == (if s@[lo as int] == BACKSLASH {
                SLASH
            } else {
                s@[lo as int]
            }));
            assert(t[1] == (if s@[lo as int + 1] == BACKSLASH {
                SLASH
            } else {
                s@[lo as int + 1]
            }));
        }
    }
    let ghost u = if starts_dot_slash(t) {
        t.skip(2)
    } else {
        t
    };
    assert(u =~= s@.subrange(lo2 as int, hi as int).map_values(
        |b: u8|
            if b == BACKSLASH {
                SLASH
            } else {
                b
            },
    ));
    // strip one trailing "/" (or "\"), unless only it remains
    let hi2: usize = if hi - lo2 > 1 && (s[hi - 1] == SLASH || s[hi - 1] == BACKSLASH) {
        hi - 1
    } else {
        hi
    };
    assert((u.len() > 1 && u[u.len() - 1] == SLASH) <==> hi2 == hi - 1);
    let ghost w = if u.len() > 1 && u[u.len() - 1] == SLASH {
        u.drop_last()
    } else {
        u
    };
    let mut r: Vec<u8> = Vec::new();
    let mut i: usize = lo2;
    while i < hi2
        invariant
            lo2 <= i <= hi2 <= s@.len(),
            w =~= s@.subrange(lo2 as int, hi2 as int).map_values(
                |b: u8|
                    if b == BACKSLASH {
                        SLASH
                    } else {
                        b
                    },
            ),
            r@ =~= s@.subrange(lo2 as int, i as int).map_values(
                |b: u8|
                    if b == BACKSLASH {
                        SLASH
                    } else {
                        b
                    },
            ),
        decreases hi2 - i,
    {
        let b = s[i];
        r.push(if b == BACKSLASH {
            SLASH
        } else {
            b
        });
        assert(s@.subrange(lo2 as int, i + 1) =~= s@.subrange(lo2 as int, i as int).push(
            s@[i as int],
        ));
        i = i + 1;
    }
    assert(r@ =~= w);
    r
}

/// A byte string on which no normalization step fires: no surrounding
/// whitespace, no backslash, no leading `./`, and no droppable trailing `/`.
pub open spec fn normal_form(t: Seq<u8>) -> bool {
    &&& (t.len() == 0 || (!is_space(t[0]) && !is_space(t[t.len() - 1])))
    &&& (forall|i: int| 0 <= i < t.len() ==> t[i] != BACKSLASH)
    &&& !starts_dot_slash(t)
    &&& !(t.len() > 1 && t[t.len() - 1] == SLASH)
}

/// A string in normal form is left unchanged by normalization.
pub proof fn lemma_norm_fixpoint(t: Seq<u8>)
    requires
        normal_form(t),
    ensures
        norm_spec(t) == t,
{
    reveal_with_fuel(first_non_space, 2);
    reveal_with_fuel(last_non_space, 2);
    assert(first_non_space(t, 0) == 0);
    assert(last_non_space(t, t.len() as int) == t.len());
    assert(trim_spec(t) =~= t);
    assert(replace_sep(t) =~= t);
}

/// A normalized path never holds a backslash: every one was replaced. Of
/// the conditions of `normal_form`, only the whitespace, leading-`./` and
/// trailing-`/` ones can fail of a normalized path.
pub proof fn lemma_norm_no_backslash(s: Seq<u8>)
    ensures
        forall|i: int| 0 <= i < norm_spec(s).len() ==> norm_spec(s)[i] != BACKSLASH,
{
    let t = replace_sep(trim_spec(s));
    assert(forall|i: int| 0 <= i < t.len() ==> t[i] != BACKSLASH);
    let u = if starts_dot_slash(t) {
        t.skip(2)
    } else {
        t
    };
    assert(forall|i: int| 0 <= i < u.len() ==> u[i] != BACKSLASH) by {
        if starts_dot_slash(t) {
            assert(forall|i: int| 0 <= i < u.len() ==> u[i] == t[i + 2]);
        }
    }
    assert(forall|i: int| 0 <= i < norm_spec(s).len() ==> norm_spec(s)[i] == u[i]);
}

/// Normalization is idempotent: a second pass returns its input unchanged.
/// This holds exactly when the first pass produced a normal form; a raw
/// string such as `././a` loses only one `./` per pass and is excluded.
pub proof fn lemma_normalize_idempotent(s: Seq<u8>)
    requires
        normal_form(norm_spec(s)),
    ensures
        norm_spec(norm_spec(s)) == norm_spec(s),
{
    lemma_norm_fixpoint(norm_spec(s));
}

/// Executable test for the whitespace class trimmed by `normalize_rel`.
pub fn is_space_b(b: u8) -> (r: bool)
    ensures
        r == is_space(b),
{
    b == 32 || b == 9 || b == 10 || b == 13 || b == 11 || b == 12
}

} // verus!
