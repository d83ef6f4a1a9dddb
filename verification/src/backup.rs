//! The backup service: relocates the entries a manifest lists into a
//! dated directory under a configured backups root. The directory is
//! named `backup-YYYYMMDD` from the current local calendar date; runs on
//! the same day append into the same directory, and a file that would
//! land on an already-taken name gets a numeric `-1`, `-2`, ... suffix
//! before its extension instead of overwriting.

use vstd::prelude::*;
use chrono::Datelike;
use crate::fsmodel::EntryKind;
use crate::mover::{FsOp, op_views, relocate_ops_spec, relocate_fallback_ops, clone_bytes};
use crate::order::{entry_views, bytes_eq};

verus! {

/// Decimal digits of `n`, most significant first.
pub open spec fn dec_digits(n: nat) -> Seq<u8>
    decreases n,
{
    if n < 10 {
        seq![(48 + n) as u8]
    } else {
        dec_digits(n / 10) + seq![(48 + n % 10) as u8]
    }
}

/// `s` left-padded with zeros to at least `w` bytes.
pub open spec fn zero_pad(s: Seq<u8>, w: int) -> Seq<u8> {
    if s.len() >= w {
        s
    } else {
        Seq::new((w - s.len()) as nat, |i: int| 48u8) + s
    }
}

/// Append the decimal digits of `n`.
fn push_dec(out: &mut Vec<u8>, n: u64)
    ensures
        final(out)@ == old(out)@ + dec_digits(n as nat),
    decreases n,
{
    if n < 10 {
        out.push((48 + n) as u8);
        assert(final(out)@ =~= old(out)@ + dec_digits(n as nat));
    } else {
        push_dec(out, n / 10);
        out.push((48 + (n % 10)) as u8);
        assert(final(out)@ =~= old(out)@ + (dec_digits((n / 10) as nat) + seq![
            (48 + (n as nat) % 10) as u8,
        ]));
    }
}

/// Append the decimal digits of `n`, zero-padded to at least `w` bytes.
fn push_dec_padded(out: &mut Vec<u8>, n: u64, w: usize)
    requires
        w <= 8,
    ensures
        final(out)@ == old(out)@ + zero_pad(dec_digits(n as nat), w as int),
{
    let mut digits: Vec<u8> = Vec::new();
    push_dec(&mut digits, n);
    assert(digits@ == dec_digits(n as nat));
    let mut pad: usize = 0;
    while pad + digits.len() < w
        invariant
            w <= 8,
            digits@.len() >= 1,
            pad + digits@.len() <= w || pad == 0,
            out@ == old(out)@ + Seq::new(pad as nat, |i: int| 48u8),
        decreases w - pad,
    {
        out.push(48);
        assert(out@ =~= old(out)@ + Seq::new((pad + 1) as nat, |i: int| 48u8));
        pad = pad + 1;
    }
    let mut digits = digits;
    out.append(&mut digits);
    assert(out@ =~= old(out)@ + zero_pad(dec_digits(n as nat), w as int));
}

/// The `backup-` prefix of a dated directory name.
pub open spec fn backup_prefix() -> Seq<u8> {
    seq![98u8, 97u8, 99u8, 107u8, 117u8, 112u8, 45u8]
}

/// The dated directory name `backup-YYYYMMDD` for a local calendar date,
/// the year zero-padded to four digits (sign first for a negative year),
/// month and day to two.
pub open spec fn dated_name_spec(y: int, m: nat, d: nat) -> Seq<u8> {
    let ys = if y < 0 {
        seq![45u8] + zero_pad(dec_digits((-y) as nat), 3)
    } else {
        zero_pad(dec_digits(y as nat), 4)
    };
    backup_prefix() + ys + zero_pad(dec_digits(m), 2) + zero_pad(dec_digits(d), 2)
}

/// Build the dated directory name for the given local calendar date.
pub fn dated_folder_name(y: i32, m: u32, d: u32) -> (r: Vec<u8>)
    requires
        m <= 99,
        d <= 99,
    ensures
        r@ == dated_name_spec(y as int, m as nat, d as nat),
{
    let mut r: Vec<u8> = Vec::new();
    r.push(98);
    r.push(97);
    r.push(99);
    r.push(107);
    r.push(117);
    r.push(112);
    r.push(45);
    assert(r@ =~= backup_prefix());
    if y < 0 {
        r.push(45);
        let mag: u64 = (-(y as i64)) as u64;
        push_dec_padded(&mut r, mag, 3);
        assert(r@ =~= backup_prefix() + (seq![45u8] + zero_pad(
            dec_digits((-(y as int)) as nat),
            3,
        )));
    } else {
        push_dec_padded(&mut r, y as u64, 4);
    }
    let ghost ypart = r@;
    push_dec_padded(&mut r, m as u64, 2);
    push_dec_padded(&mut r, d as u64, 2);
    assert(r@ =~= dated_name_spec(y as int, m as nat, d as nat));
    r
}

/// `a/b`, or `b` alone when the left part is empty.
pub open spec fn joined(a: Seq<u8>, b: Seq<u8>) -> Seq<u8> {
    if a.len() == 0 {
        b
    } else {
        a + seq![47u8] + b
    }
}

/// Join two path fragments with a separator.
pub fn join_path(a: &Vec<u8>, b: &Vec<u8>) -> (r: Vec<u8>)
    ensures
        r@ == joined(a@, b@),
{
    if a.len() == 0 {
        return clone_bytes(b);
    }
    let mut r = clone_bytes(a);
    r.push(47);
    let mut tail = clone_bytes(b);
    r.append(&mut tail);
    assert(r@ =~= a@ + seq![47u8] + b@);
    r
}

/// Relies on chrono's `Local::now` and the `Datelike` accessors: the
/// current local calendar date, with `month` in 1..=12 and `day` in
/// 1..=31 as chrono documents, and the year inside chrono's supported
/// calendar range.
#[verifier::external_body]
fn today_ymd() -> (r: (i32, u32, u32))
    ensures
        -262144 <= r.0 <= 262143,
        1 <= r.1 <= 12,
        1 <= r.2 <= 31,
{
    let now = chrono::Local::now();
    (now.year(), now.month(), now.day())
}

/// One past the position of the last `/` before `i`, or 0: where the
/// final path component starts.
pub open spec fn last_slash_end(s: Seq<u8>, i: int) -> int
    decreases i,
{
    if i <= 0 || i > s.len() {
        0
    } else if s[i - 1] == 47 {
        i
    } else {
        last_slash_end(s, i - 1)
    }
}

/// The position of the last `.` strictly inside the final path component
/// (not its first byte), or the length when there is none: where a
/// numeric collision suffix is inserted, in front of the extension.
pub open spec fn last_dot_after(s: Seq<u8>, c: int, i: int) -> int
    decreases i,
{
    if i <= c + 1 || i <= 0 || i > s.len() {
        s.len() as int
    } else if s[i - 1] == 46 {
        i - 1
    } else {
        last_dot_after(s, c, i - 1)
    }
}

pub open spec fn split_pos(s: Seq<u8>) -> int {
    last_dot_after(s, last_slash_end(s, s.len() as int), s.len() as int)
}

proof fn lemma_last_slash_end_bounds(s: Seq<u8>, i: int)
    requires
        0 <= i <= s.len(),
    ensures
        0 <= last_slash_end(s, i) <= i,
    decreases i,
{
    if i > 0 && s[i - 1] != 47 {
        lemma_last_slash_end_bounds(s, i - 1);
    }
}

proof fn lemma_last_dot_after_bounds(s: Seq<u8>, c: int, i: int)
    requires
        0 <= i <= s.len(),
    ensures
        last_dot_after(s, c, i) == s.len() || 0 <= last_dot_after(s, c, i) <= i,
    decreases i,
{
    if i > c + 1 && i > 0 && s[i - 1] != 46 {
        lemma_last_dot_after_bounds(s, c, i - 1);
    }
}

/// `k`th name tried for a colliding backup file: the name itself for
/// `k == 0`, then the name with `-k` inserted before its extension.
pub open spec fn candidate(name: Seq<u8>, k: nat) -> Seq<u8> {
    if k == 0 {
        name
    } else {
        let sp = split_pos(name);
        name.subrange(0, sp) + seq![45u8] + dec_digits(k) + name.subrange(sp, name.len() as int)
    }
}

/// `r` is the name the collision rule picks for `name` against the
/// already-taken list: the first candidate — plain name, then `-1`, `-2`,
/// ... — that is not taken. Distinct `k` give distinct candidates, so a
/// free one always exists among the first `taken.len() + 1`.
pub open spec fn picked_free_name(name: Seq<u8>, taken: Seq<Seq<u8>>, r: Seq<u8>) -> bool {
    exists|k: nat|
        k <= taken.len() && r == #[trigger] candidate(name, k) && !taken.contains(r) && (forall|
            j: nat,
        | j < k ==> taken.contains(#[trigger] candidate(name, j)))
}

proof fn lemma_dec_digits_len(n: nat)
    ensures
        dec_digits(n).len() >= 1,
    decreases n,
{
    if n >= 10 {
        lemma_dec_digits_len(n / 10);
    }
}

proof fn lemma_dec_digits_injective(m: nat, n: nat)
    requires
        dec_digits(m) == dec_digits(n),
    ensures
        m == n,
    decreases m,
{
    lemma_dec_digits_len(m);
    lemma_dec_digits_len(n);
    if m < 10 && n < 10 {
        assert(dec_digits(m)[0] == (48 + m) as u8);
        assert(dec_digits(n)[0] == (48 + n) as u8);
    } else if m >= 10 && n >= 10 {
        assert(dec_digits(m).drop_last() =~= dec_digits(m / 10));
        assert(dec_digits(n).drop_last() =~= dec_digits(n / 10));
        lemma_dec_digits_injective(m / 10, n / 10);
        assert(dec_digits(m).last() == (48 + m % 10) as u8);
        assert(dec_digits(n).last() == (48 + n % 10) as u8);
        assert(m % 10 == n % 10);
        assert(m == 10 * (m / 10) + m % 10) by (nonlinear_arith);
        assert(n == 10 * (n / 10) + n % 10) by (nonlinear_arith);
    } else if m < 10 {
        assert(dec_digits(m).len() == 1);
        assert(dec_digits(n).len() == dec_digits(n / 10).len() + 1);
        assert(false);
    } else {
        assert(dec_digits(n).len() == 1);
        assert(dec_digits(m).len() == dec_digits(m / 10).len() + 1);
        assert(false);
    }
}

proof fn lemma_split_pos_bounds(name: Seq<u8>)
    ensures
        0 <= split_pos(name) <= name.len(),
{
    lemma_last_slash_end_bounds(name, name.len() as int);
    lemma_last_dot_after_bounds(name, last_slash_end(name, name.len() as int), name.len() as int);
}

proof fn lemma_candidate_injective(name: Seq<u8>, j: nat, k: nat)
    requires
        candidate(name, j) == candidate(name, k),
    ensures
        j == k,
{
    lemma_split_pos_bounds(name);
    lemma_dec_digits_len(j);
    lemma_dec_digits_len(k);
    let sp = split_pos(name);
    if j == 0 && k >= 1 {
        assert(candidate(name, k).len() == name.len() + 1 + dec_digits(k).len());
        assert(false);
    } else if k == 0 && j >= 1 {
        assert(candidate(name, j).len() == name.len() + 1 + dec_digits(j).len());
        assert(false);
    } else if j >= 1 && k >= 1 {
        assert(candidate(name, j).len() == name.len() + 1 + dec_digits(j).len());
        assert(candidate(name, k).len() == name.len() + 1 + dec_digits(k).len());
        assert(dec_digits(j).len() == dec_digits(k).len());
        let dl = dec_digits(j).len() as int;
        assert(candidate(name, j).subrange(sp + 1, sp + 1 + dl) =~= dec_digits(j));
        assert(candidate(name, k).subrange(sp + 1, sp + 1 + dl) =~= dec_digits(k));
        lemma_dec_digits_injective(j, k);
    }
}

/// Among the first `taken.len() + 1` candidate names, one is always free:
/// the candidates are pairwise distinct, and a list of `n` names cannot
/// hold `n + 1` distinct values.
proof fn lemma_some_candidate_free(name: Seq<u8>, taken: Seq<Seq<u8>>)
    ensures
        exists|k: nat| k <= taken.len() && !taken.contains(#[trigger] candidate(name, k)),
{
    broadcast use vstd::seq_lib::seq_to_set_is_finite;

    let n = taken.len();
    if forall|k: nat| k <= n ==> taken.contains(#[trigger] candidate(name, k)) {
        let cands = Seq::new(n + 1, |k: int| candidate(name, k as nat));
        assert(cands.no_duplicates()) by {
            assert forall|a: int, b: int|
                0 <= a < cands.len() && 0 <= b < cands.len() && a != b implies cands[a]
                != cands[b] by {
                if cands[a] == cands[b] {
                    lemma_candidate_injective(name, a as nat, b as nat);
                }
            }
        }
        cands.unique_seq_to_set();
        taken.lemma_cardinality_of_set();
        assert(cands.to_set().subset_of(taken.to_set())) by {
            assert forall|x: Seq<u8>| cands.to_set().contains(x) implies taken.to_set().contains(
                x,
            ) by {
                let a = choose|a: int| 0 <= a < cands.len() && cands[a] == x;
                assert(taken.contains(candidate(name, a as nat)));
            }
        }
        vstd::set_lib::lemma_len_subset(cands.to_set(), taken.to_set());
        assert(false);
    }
}

/// Where the collision suffix goes in `name`.
fn find_split(name: &Vec<u8>) -> (r: usize)
    ensures
        r == split_pos(name@),
        r <= name.len(),
{
    proof {
        lemma_last_slash_end_bounds(name@, name@.len() as int);
    }
    let mut i: usize = name.len();
    while i > 0 && name[i - 1] != 47
        invariant
            i <= name.len(),
            last_slash_end(name@, name@.len() as int) == last_slash_end(name@, i as int),
        decreases i,
    {
        i = i - 1;
    }
    let c = i;
    assert(c as int == last_slash_end(name@, name@.len() as int));
    proof {
        lemma_last_dot_after_bounds(name@, c as int, name@.len() as int);
    }
    let mut j: usize = name.len();
    while j > 0 && j - 1 > c && name[j - 1] != 46
        invariant
            j <= name.len(),
            last_dot_after(name@, c as int, name@.len() as int) == last_dot_after(
                name@,
                c as int,
                j as int,
            ),
        decreases j,
    {
        j = j - 1;
    }
    if j > 0 && j - 1 > c {
        j - 1
    } else {
        name.len()
    }
}

/// Build the `k`th candidate name.
fn build_candidate(name: &Vec<u8>, k: usize) -> (r: Vec<u8>)
    ensures
        r@ == candidate(name@, k as nat),
{
    if k == 0 {
        return clone_bytes(name);
    }
    let sp = find_split(name);
    let mut r: Vec<u8> = Vec::new();
    let mut i: usize = 0;
    while i < sp
        invariant
            i <= sp <= name@.len(),
            r@ =~= name@.subrange(0, i as int),
        decreases sp - i,
    {
        r.push(name[i]);
        assert(name@.subrange(0, i + 1) =~= name@.subrange(0, i as int).push(name@[i as int]));
        i = i + 1;
    }
    r.push(45);
    push_dec(&mut r, k as u64);
    let ghost mid = r@;
    let mut i: usize = sp;
    while i < name.len()
        invariant
            sp <= i <= name@.len(),
            r@ =~= mid + name@.subrange(sp as int, i as int),
        decreases name@.len() - i,
    {
        r.push(name[i]);
        assert(name@.subrange(sp as int, i + 1) =~= name@.subrange(sp as int, i as int).push(
            name@[i as int],
        ));
        i = i + 1;
    }
    assert(r@ =~= candidate(name@, k as nat));
    r
}

/// Pick the destination name for a backed-up file: the first of the
/// plain name, `stem-1.ext`, `stem-2.ext`, ... that is not already taken
/// in the dated directory, so a same-named file from an earlier run on
/// the same day is never overwritten.
pub fn unique_backup_name(name: &Vec<u8>, taken: &Vec<Vec<u8>>) -> (r: Vec<u8>)
    ensures
        picked_free_name(name@, entry_views(taken@), r@),
{
    let mut k: usize = 0;
    while k < taken.len()
        invariant
            k <= taken.len(),
            forall|j: nat| j < k ==> entry_views(taken@).contains(#[trigger] candidate(name@, j)),
        decreases taken.len() - k,
    {
        let cand = build_candidate(name, k);
        if !crate::order::contains_bytes(taken, &cand) {
            return cand;
        }
        k = k + 1;
    }
    let cand = build_candidate(name, k);
    if !crate::order::contains_bytes(taken, &cand) {
        return cand;
    }
    proof {
        // all of candidate 0 ..= taken.len() taken: impossible
        assert(entry_views(taken@).contains(candidate(name@, k as nat)));
        lemma_some_candidate_free(name@, entry_views(taken@));
        let kf = choose|kf: nat|
            kf <= entry_views(taken@).len() && !entry_views(taken@).contains(
                #[trigger] candidate(name@, kf),
            );
        assert(entry_views(taken@).contains(candidate(name@, kf)));
        assert(false);
    }
    clone_bytes(name)
}

/// The plan for one backup entry: whether it is skipped, the destination
/// chosen for it, and the fallback steps should the in-place rename fail.
pub struct RelocatePlan {
    /// The source was missing; warn and carry on with the other entries.
    pub skip: bool,
    /// Where the entry goes, collision-suffixed for a file if need be.
    pub dest: Vec<u8>,
    /// Copy-then-delete steps, for when the rename to `dest` fails.
    pub fallback: Vec<FsOp>,
}

/// Plan one backup entry from the observed kind of its source. A missing
/// source is skipped — never an error, so the remaining entries still
/// run. A file destination already taken in the dated directory is
/// suffixed; directories merge instead.
pub fn plan_backup_entry(kind: EntryKind, src: &Vec<u8>, dst: &Vec<u8>, taken: &Vec<Vec<u8>>) -> (r:
    RelocatePlan)
    ensures
        r.skip == (kind is Missing),
        kind is Missing ==> op_views(r.fallback@) == Seq::<crate::fsmodel::FsOpV>::empty(),
        kind is Dir ==> r.dest@ == dst@,
        kind is File ==> picked_free_name(dst@, entry_views(taken@), r.dest@),
        !(kind is Missing) ==> op_views(r.fallback@) == relocate_ops_spec(kind, src@, r.dest@),
{
    match kind {
        EntryKind::Missing => {
            let r = RelocatePlan { skip: true, dest: clone_bytes(dst), fallback: Vec::new() };
            assert(op_views(r.fallback@) =~= Seq::<crate::fsmodel::FsOpV>::empty());
            r
        },
        EntryKind::File => {
            let dest = unique_backup_name(dst, taken);
            let fallback = relocate_fallback_ops(kind, src, &dest);
            RelocatePlan { skip: false, dest, fallback }
        },
        EntryKind::Dir => {
            let dest = clone_bytes(dst);
            let fallback = relocate_fallback_ops(kind, src, &dest);
            RelocatePlan { skip: false, dest, fallback }
        },
    }
}

/// The backup service, configured with the backups root directory.
pub struct Backup {
    root: Vec<u8>,
}

impl Backup {
    /// The configured backups root.
    pub closed spec fn root_view(&self) -> Seq<u8> {
        self.root@
    }

    pub fn new(root: Vec<u8>) -> (r: Backup)
        ensures
            r.root_view() == root@,
    {
        Backup { root }
    }

    /// The dated directory path for the given local calendar date.
    pub fn dated_dir(&self, y: i32, m: u32, d: u32) -> (r: Vec<u8>)
        requires
            m <= 99,
            d <= 99,
        ensures
            r@ == joined(self.root_view(), dated_name_spec(y as int, m as nat, d as nat)),
    {
        let name = dated_folder_name(y, m, d);
        join_path(&self.root, &name)
    }

    /// The dated directory path for today, read from the local clock: a
    /// run later the same day names the same directory and appends into
    /// it.
    pub fn dated_dir_today(&self) -> (r: Vec<u8>)
        ensures
            exists|y: int, m: nat, d: nat|
                -262144 <= y <= 262143 && 1 <= m <= 12 && 1 <= d <= 31 && r@ == joined(
                    self.root_view(),
                    dated_name_spec(y, m, d),
                ),
    {
        let (y, m, d) = today_ymd();
        let r = self.dated_dir(y, m, d);
        proof {
            assert(-262144 <= y as int <= 262143 && 1 <= m as nat <= 12 && 1 <= d as nat <= 31
                && r@ == joined(self.root_view(), dated_name_spec(y as int, m as nat, d as nat)));
        }
        r
    }
}

} // verus!
