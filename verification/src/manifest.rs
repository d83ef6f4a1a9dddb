//! The manifest document: a JSON object in one of two accepted shapes.
//!
//! - Unified: `{ "entries": [ "<relative path>", ... ] }`
//! - Legacy/Split: `{ "files": [...], "data_folders": [...] }`, each folder
//!   name rewritten to `data/<name>` with surrounding separators trimmed.
//!
//! A document whose top level is not an object, or in which one of the three
//! recognized keys holds anything but an array of strings, is a parse error;
//! every other key is ignored. The presence of `entries` selects the Unified
//! shape; otherwise the Split shape applies, each list defaulting to empty.

use vstd::prelude::*;
use crate::json::{
    sws, skip_value, ps_string_body, ps_strarr_items, skip_ws, skip_value_b, read_string_body,
    read_strarr_items, pos_matches, QUOTE,
};
use crate::norm::norm_spec;
use crate::order::{entry_views, is_entry_of, strictly_sorted, normalized_entries, bytes_eq};

verus! {

/// The error taxonomy of the update engine.
#[derive(Clone, Copy, Debug, PartialEq, Eq, Structural)]
pub enum UpdateError {
    /// The manifest (or another required path) does not exist.
    NotFound,
    /// The manifest is not valid structured data in an accepted shape.
    ParseError,
    /// A copy, rename or delete failed for a reason other than a benign
    /// missing source.
    IoFailure,
    /// A fetch or extract collaborator failed; opaque to this library.
    UpstreamFailure,
}

impl UpdateError {
    /// The wording of this error class in messages.
    pub open spec fn label_spec(&self) -> Seq<char> {
        match self {
            UpdateError::NotFound => "not found"@,
            UpdateError::ParseError => "parse error"@,
            UpdateError::IoFailure => "io failure"@,
            UpdateError::UpstreamFailure => "upstream failure"@,
        }
    }

    /// A short label for logs and messages.
    pub fn label(&self) -> (r: String)
        ensures
            r@ == self.label_spec(),
    {
        match self {
            UpdateError::NotFound => "not found".to_owned(),
            UpdateError::ParseError => "parse error".to_owned(),
            UpdateError::IoFailure => "io failure".to_owned(),
            UpdateError::UpstreamFailure => "upstream failure".to_owned(),
        }
    }
}

/// Specification-level manifest shape.
pub enum ManifestV {
    Unified { entries: Seq<Seq<u8>> },
    Split { files: Seq<Seq<u8>>, data_folders: Seq<Seq<u8>> },
}

/// A parsed manifest, in whichever of the two accepted shapes it was given.
pub enum Manifest {
    Unified { entries: Vec<Vec<u8>> },
    Split { files: Vec<Vec<u8>>, data_folders: Vec<Vec<u8>> },
}

impl View for Manifest {
    type V = ManifestV;

    open spec fn view(&self) -> ManifestV {
        match self {
            Manifest::Unified { entries } => ManifestV::Unified { entries: entry_views(entries@) },
            Manifest::Split { files, data_folders } => ManifestV::Split {
                files: entry_views(files@),
                data_folders: entry_views(data_folders@),
            },
        }
    }
}

pub open spec fn key_entries() -> Seq<u8> {
    seq![101u8, 110u8, 116u8, 114u8, 105u8, 101u8, 115u8]
}

pub open spec fn key_files() -> Seq<u8> {
    seq![102u8, 105u8, 108u8, 101u8, 115u8]
}

pub open spec fn key_data_folders() -> Seq<u8> {
    seq![100u8, 97u8, 116u8, 97u8, 95u8, 102u8, 111u8, 108u8, 100u8, 101u8, 114u8, 115u8]
}

/// The `data/` prefix put before a rewritten legacy folder name.
pub open spec fn data_prefix() -> Seq<u8> {
    seq![100u8, 97u8, 116u8, 97u8, 47u8]
}

fn key_entries_vec() -> (r: Vec<u8>)
    ensures
        r@ == key_entries(),
{
    let mut r: Vec<u8> = Vec::new();
    r.push(101);
    r.push(110);
    r.push(116);
    r.push(114);
    r.push(105);
    r.push(101);
    r.push(115);
    assert(r@ =~= key_entries());
    r
}

fn key_files_vec() -> (r: Vec<u8>)
    ensures
        r@ == key_files(),
{
    let mut r: Vec<u8> = Vec::new();
    r.push(102);
    r.push(105);
    r.push(108);
    r.push(101);
    r.push(115);
    assert(r@ =~= key_files());
    r
}

fn key_data_folders_vec() -> (r: Vec<u8>)
    ensures
        r@ == key_data_folders(),
{
    let mut r: Vec<u8> = Vec::new();
    r.push(100);
    r.push(97);
    r.push(116);
    r.push(97);
    r.push(95);
    r.push(102);
    r.push(111);
    r.push(108);
    r.push(100);
    r.push(101);
    r.push(114);
    r.push(115);
    assert(r@ =~= key_data_folders());
    r
}

/// Builds the `data/` prefix.
pub fn data_prefix_vec() -> (r: Vec<u8>)
    ensures
        r@ == data_prefix(),
{
    let mut r: Vec<u8> = Vec::new();
    r.push(100);
    r.push(97);
    r.push(116);
    r.push(97);
    r.push(47);
    assert(r@ =~= data_prefix());
    r
}

/// Walk the manifest object's members from just after `{` or `,`, filling
/// one slot per recognized key (a later duplicate key wins). A recognized
/// key whose value is not an array of strings fails the parse; any other
/// key's value is skipped whatever its shape.
pub open spec fn ps_manifest_members(
    s: Seq<u8>,
    i: int,
    ent: Option<Seq<Seq<u8>>>,
    fil: Option<Seq<Seq<u8>>>,
    dat: Option<Seq<Seq<u8>>>,
    first: bool,
) -> Option<((Option<Seq<Seq<u8>>>, Option<Seq<Seq<u8>>>, Option<Seq<Seq<u8>>>), int)>
    decreases s.len() - i,
{
    if !(0 <= i <= s.len()) {
        None
    } else {
        let j = sws(s, i);
        if !(i <= j < s.len()) {
            None
        } else if s[j] == 125 && first {
            Some(((ent, fil, dat), j + 1))
        } else if s[j] != QUOTE {
            None
        } else {
            match ps_string_body(s, j + 1) {
                None => None,
                Some((key, k)) => {
                    if !(j < k <= s.len()) {
                        None
                    } else {
                        let m = sws(s, k);
                        if !(k <= m < s.len()) {
                            None
                        } else if s[m] != 58 {
                            None
                        } else {
                            let v0 = sws(s, m + 1);
                            if !(m < v0 <= s.len()) {
                                None
                            } else if key == key_entries() || key == key_files() || key
                                == key_data_folders() {
                                if !(v0 < s.len()) || s[v0] != 91 {
                                    None
                                } else {
                                    match ps_strarr_items(s, v0 + 1, true) {
                                        None => None,
                                        Some((arr, k2)) => {
                                            if !(v0 < k2 <= s.len()) {
                                                None
                                            } else {
                                                let ent2 = if key == key_entries() {
                                                    Some(arr)
                                                } else {
                                                    ent
                                                };
                                                let fil2 = if key == key_files() {
                                                    Some(arr)
                                                } else {
                                                    fil
                                                };
                                                let dat2 = if key == key_data_folders() {
                                                    Some(arr)
                                                } else {
                                                    dat
                                                };
                                                let m2 = sws(s, k2);
                                                if !(k2 <= m2 < s.len()) {
                                                    None
                                                } else if s[m2] == 125 {
                                                    Some(((ent2, fil2, dat2), m2 + 1))
                                                } else if s[m2] == 44 {
                                                    ps_manifest_members(
                                                        s,
                                                        m2 + 1,
                                                        ent2,
                                                        fil2,
                                                        dat2,
                                                        false,
                                                    )
                                                } else {
                                                    None
                                                }
                                            }
                                        },
                                    }
                                }
                            } else {
                                match skip_value(s, v0) {
                                    None => None,
                                    Some(k2) => {
                                        if !(v0 < k2 <= s.len()) {
                                            None
                                        } else {
                                            let m2 = sws(s, k2);
                                            if !(k2 <= m2 < s.len()) {
                                                None
                                            } else if s[m2] == 125 {
                                                Some(((ent, fil, dat), m2 + 1))
                                            } else if s[m2] == 44 {
                                                ps_manifest_members(s, m2 + 1, ent, fil, dat, false)
                                            } else {
                                                None
                                            }
                                        }
                                    },
                                }
                            }
                        }
                    }
                },
            }
        }
    }
}

/// The manifest parsed from the whole document, if it is valid.
pub open spec fn parse_manifest_spec(s: Seq<u8>) -> Option<ManifestV> {
    let j = sws(s, 0);
    if !(0 <= j < s.len()) {
        None
    } else if s[j] != 123 {
        None
    } else {
        match ps_manifest_members(s, j + 1, None, None, None, true) {
            None => None,
            Some(((ent, fil, dat), k)) => {
                if !(0 <= k <= s.len()) {
                    None
                } else if sws(s, k) != s.len() {
                    None
                } else {
                    match ent {
                        Some(e) => Some(ManifestV::Unified { entries: e }),
                        None => Some(
                            ManifestV::Split {
                                files: match fil {
                                    Some(f) => f,
                                    None => Seq::empty(),
                                },
                                data_folders: match dat {
                                    Some(d) => d,
                                    None => Seq::empty(),
                                },
                            },
                        ),
                    }
                }
            },
        }
    }
}

pub open spec fn slot_matches(r: Option<Vec<Vec<u8>>>, t: Option<Seq<Seq<u8>>>) -> bool {
    match r {
        Some(v) => t == Some(entry_views(v@)),
        None => t is None,
    }
}

/// Mirrors `ps_manifest_members`.
fn read_manifest_members(
    s: &Vec<u8>,
    i: usize,
    ent: Option<Vec<Vec<u8>>>,
    fil: Option<Vec<Vec<u8>>>,
    dat: Option<Vec<Vec<u8>>>,
    first: bool,
) -> (r: Option<((Option<Vec<Vec<u8>>>, Option<Vec<Vec<u8>>>, Option<Vec<Vec<u8>>>), usize)>)
    requires
        i <= s.len(),
    ensures
        match r {
            Some(((re, rf, rd), j)) => {
                let t = ps_manifest_members(
                    s@,
                    i as int,
                    slot_view(ent),
                    slot_view(fil),
                    slot_view(dat),
                    first,
                );
                t is Some && slot_matches(re, ((t->0).0).0) && slot_matches(rf, ((t->0).0).1)
                    && slot_matches(rd, ((t->0).0).2) && (t->0).1 == j as int
            },
            None => ps_manifest_members(
                s@,
                i as int,
                slot_view(ent),
                slot_view(fil),
                slot_view(dat),
                first,
            ) is None,
        },
    decreases s.len() - i,
{
    let j = skip_ws(s, i);
    if !(j < s.len()) {
        return None;
    }
    if s[j] == 125 && first {
        return Some(((ent, fil, dat), j + 1));
    }
    if s[j] != QUOTE {
        return None;
    }
    match read_string_body(s, j + 1) {
        None => None,
        Some((key, k)) => {
            if !(j < k && k <= s.len()) {
                return None;
            }
            let m = skip_ws(s, k);
            if !(m < s.len()) {
                return None;
            }
            if s[m] != 58 {
                return None;
            }
            let v0 = skip_ws(s, m + 1);
            let is_ent = bytes_eq(&key, &key_entries_vec());
            let is_fil = bytes_eq(&key, &key_files_vec());
            let is_dat = bytes_eq(&key, &key_data_folders_vec());
            if is_ent || is_fil || is_dat {
                if !(v0 < s.len()) || s[v0] != 91 {
                    return None;
                }
                match read_strarr_items(s, v0 + 1, true) {
                    None => None,
                    Some((arr, k2)) => {
                        if !(v0 < k2 && k2 <= s.len()) {
                            return None;
                        }
                        let (ent2, fil2, dat2) = if is_ent {
                            (Some(arr), fil, dat)
                        } else if is_fil {
                            (ent, Some(arr), dat)
                        } else {
                            (ent, fil, Some(arr))
                        };
                        let m2 = skip_ws(s, k2);
                        if !(m2 < s.len()) {
                            return None;
                        }
                        if s[m2] == 125 {
                            Some(((ent2, fil2, dat2), m2 + 1))
                        } else if s[m2] == 44 {
                            read_manifest_members(s, m2 + 1, ent2, fil2, dat2, false)
                        } else {
                            None
                        }
                    },
                }
            } else {
                match skip_value_b(s, v0) {
                    None => None,
                    Some(k2) => {
                        if !(v0 < k2 && k2 <= s.len()) {
                            return None;
                        }
                        let m2 = skip_ws(s, k2);
                        if !(m2 < s.len()) {
                            return None;
                        }
                        if s[m2] == 125 {
                            Some(((ent, fil, dat), m2 + 1))
                        } else if s[m2] == 44 {
                            read_manifest_members(s, m2 + 1, ent, fil, dat, false)
                        } else {
                            None
                        }
                    },
                }
            }
        },
    }
}

pub open spec fn slot_view(r: Option<Vec<Vec<u8>>>) -> Option<Seq<Seq<u8>>> {
    match r {
        Some(v) => Some(entry_views(v@)),
        None => None,
    }
}

/// Parse a whole manifest document. Returns `ParseError` exactly when the
/// text is not a valid manifest in one of the two accepted shapes.
#[verifier::rlimit(100)]
pub fn parse_manifest(text: &Vec<u8>) -> (r: Result<Manifest, UpdateError>)
    ensures
        match r {
            Ok(m) => parse_manifest_spec(text@) == Some(m@),
            Err(e) => parse_manifest_spec(text@) is None && e == UpdateError::ParseError,
        },
{
    let j = skip_ws(text, 0);
    if !(j < text.len()) {
        return Err(UpdateError::ParseError);
    }
    if text[j] != 123 {
        return Err(UpdateError::ParseError);
    }
    match read_manifest_members(text, j + 1, None, None, None, true) {
        None => Err(UpdateError::ParseError),
        Some(((ent, fil, dat), k)) => {
            if !(k <= text.len()) {
                return Err(UpdateError::ParseError);
            }
            if skip_ws(text, k) != text.len() {
                return Err(UpdateError::ParseError);
            }
            match ent {
                Some(e) => Ok(Manifest::Unified { entries: e }),
                None => {
                    let files = match fil {
                        Some(f) => f,
                        None => Vec::new(),
                    };
                    let data_folders = match dat {
                        Some(d) => d,
                        None => Vec::new(),
                    };
                    assert(entry_views(Seq::<Vec<u8>>::empty()) =~= Seq::<Seq<u8>>::empty());
                    Ok(Manifest::Split { files, data_folders })
                },
            }
        },
    }
}

/// Index of the first byte from `i` on that differs from `b`.
pub open spec fn first_not(s: Seq<u8>, b: u8, i: int) -> int
    decreases s.len() - i,
{
    if i < 0 || i >= s.len() {
        s.len() as int
    } else if s[i] == b {
        first_not(s, b, i + 1)
    } else {
        i
    }
}

/// One past the last byte before `i` that differs from `b`.
pub open spec fn last_not(s: Seq<u8>, b: u8, i: int) -> int
    decreases i,
{
    if i <= 0 || i > s.len() {
        0
    } else if s[i - 1] == b {
        last_not(s, b, i - 1)
    } else {
        i
    }
}

/// `s` with every leading and trailing `b` byte removed.
pub open spec fn trim_byte(s: Seq<u8>, b: u8) -> Seq<u8> {
    let lo = first_not(s, b, 0);
    let hi = last_not(s, b, s.len() as int);
    if lo <= hi {
        s.subrange(lo, hi)
    } else {
        Seq::empty()
    }
}

/// A legacy folder name with surrounding `/` then `\` separators removed.
pub open spec fn trim_seps(s: Seq<u8>) -> Seq<u8> {
    trim_byte(trim_byte(s, 47), 92)
}

proof fn lemma_first_not_bounds(s: Seq<u8>, b: u8, i: int)
    requires
        0 <= i <= s.len(),
    ensures
        i <= first_not(s, b, i) <= s.len(),
    decreases s.len() - i,
{
    if i < s.len() && s[i] == b {
        lemma_first_not_bounds(s, b, i + 1);
    }
}

proof fn lemma_last_not_bounds(s: Seq<u8>, b: u8, i: int)
    requires
        0 <= i <= s.len(),
    ensures
        0 <= last_not(s, b, i) <= i,
    decreases i,
{
    if i > 0 && s[i - 1] == b {
        lemma_last_not_bounds(s, b, i - 1);
    }
}

/// Copy of `s` with every leading and trailing `b` byte removed.
pub fn trim_byte_vec(s: &Vec<u8>, b: u8) -> (r: Vec<u8>)
    ensures
        r@ == trim_byte(s@, b),
{
    proof {
        lemma_first_not_bounds(s@, b, 0);
        lemma_last_not_bounds(s@, b, s@.len() as int);
    }
    let mut lo: usize = 0;
    while lo < s.len() && s[lo] == b
        invariant
            lo <= s.len(),
            first_not(s@, b, 0) == first_not(s@, b, lo as int),
        decreases s.len() - lo,
    {
        lo = lo + 1;
    }
    assert(lo as int == first_not(s@, b, lo as int));
    let mut hi: usize = s.len();
    while hi > 0 && s[hi - 1] == b
        invariant
            hi <= s.len(),
            last_not(s@, b, s@.len() as int) == last_not(s@, b, hi as int),
        decreases hi,
    {
        hi = hi - 1;
    }
    assert(hi as int == last_not(s@, b, hi as int));
    let mut r: Vec<u8> = Vec::new();
    if lo > hi {
        assert(trim_byte(s@, b) =~= Seq::<u8>::empty());
        return r;
    }
    let mut i: usize = lo;
    while i < hi
        invariant
            lo <= i <= hi <= s@.len(),
            r@ =~= s@.subrange(lo as int, i as int),
        decreases hi - i,
    {
        r.push(s[i]);
        assert(s@.subrange(lo as int, i + 1) =~= s@.subrange(lo as int, i as int).push(
            s@[i as int],
        ));
        i = i + 1;
    }
    assert(r@ =~= s@.subrange(lo as int, hi as int));
    r
}

/// The single raw entry list a manifest reduces to: the Unified list as
/// given, or the Legacy lists merged with each folder name rewritten to
/// `data/<name>`.
pub open spec fn into_entries_spec(m: ManifestV) -> Seq<Seq<u8>> {
    match m {
        ManifestV::Unified { entries } => entries,
        ManifestV::Split { files, data_folders } => files + data_folders.map_values(
            |df: Seq<u8>| data_prefix() + trim_seps(df),
        ),
    }
}

impl Manifest {
    /// Merge this manifest into its single raw entry list.
    pub fn into_entries(self) -> (r: Vec<Vec<u8>>)
        ensures
            entry_views(r@) == into_entries_spec(self@),
    {
        let ghost mv = self@;
        match self {
            Manifest::Unified { entries } => {
                assert(entry_views(entries@) =~= into_entries_spec(mv));
                entries
            },
            Manifest::Split { files, data_folders } => {
                let ghost fviews = entry_views(files@);
                let ghost dviews = entry_views(data_folders@);
                let mut out = files;
                let mut i: usize = 0;
                while i < data_folders.len()
                    invariant
                        i <= data_folders.len(),
                        dviews == entry_views(data_folders@),
                        entry_views(out@).len() == fviews.len() + i,
                        forall|k: int|
                            0 <= k < fviews.len() ==> entry_views(out@)[k] == fviews[k],
                        forall|k: int|
                            0 <= k < i ==> entry_views(out@)[fviews.len() + k] == data_prefix()
                                + trim_seps(dviews[k]),
                    decreases data_folders.len() - i,
                {
                    let mut e = data_prefix_vec();
                    let t = trim_byte_vec(&data_folders[i], 47);
                    let mut t2 = trim_byte_vec(&t, 92);
                    e.append(&mut t2);
                    assert(e@ == data_prefix() + trim_seps(dviews[i as int]));
                    out.push(e);
                    i = i + 1;
                }
                assert(entry_views(out@) =~= into_entries_spec(mv)) by {
                    let f = |df: Seq<u8>| data_prefix() + trim_seps(df);
                    assert(into_entries_spec(mv) == fviews + dviews.map_values(f));
                    assert(entry_views(out@).len() == fviews.len() + dviews.len());
                    assert(forall|k: int|
                        0 <= k < dviews.len() ==> #[trigger] dviews.map_values(f)[k] == f(
                            dviews[k],
                        ));
                }
                out
            },
        }
    }
}

/// `e` belongs to the entry set described by manifest text `s`: the text
/// parses, and some raw entry of the parsed manifest normalizes to `e`.
pub open spec fn text_entry_ok(s: Seq<u8>, e: Seq<u8>) -> bool {
    parse_manifest_spec(s) is Some && is_entry_of(into_entries_spec(parse_manifest_spec(s)->0), e)
}

/// Read a manifest from its document text: parse it, normalize every raw
/// entry, discard the empties, and return the sorted, duplicate-free entry
/// list. An empty result is not an error: an intentionally empty manifest
/// is valid and the caller proceeds with a no-op.
pub fn manifest_entries(text: &Vec<u8>) -> (r: Result<Vec<Vec<u8>>, UpdateError>)
    ensures
        match r {
            Ok(v) => parse_manifest_spec(text@) is Some && strictly_sorted(entry_views(v@)) && (
            forall|e: Seq<u8>| entry_views(v@).contains(e) <==> text_entry_ok(text@, e)),
            Err(e) => parse_manifest_spec(text@) is None && e == UpdateError::ParseError,
        },
{
    match parse_manifest(text) {
        Err(e) => Err(e),
        Ok(m) => {
            let raws = m.into_entries();
            Ok(normalized_entries(&raws))
        },
    }
}

} // verus!
