//! A recursive-descent reader for the structured manifest document: enough
//! of the JSON grammar to decode strings (escapes included), to walk past
//! ignored values of any shape, and to collect arrays of strings.
//!
//! Every executable function returns exactly what its specification twin
//! says on the same input, so the accepted language is pinned down by the
//! spec functions here.

use vstd::prelude::*;

verus! {

pub const QUOTE: u8 = 34;

pub const BSL: u8 = 92;

/// The whitespace accepted between JSON tokens.
pub open spec fn json_ws(b: u8) -> bool {
    b == 32 || b == 9 || b == 10 || b == 13
}

/// Position of the first byte from `i` on that is not JSON whitespace.
pub open spec fn sws(s: Seq<u8>, i: int) -> int
    decreases s.len() - i,
{
    if i < 0 || i >= s.len() {
        i
    } else if json_ws(s[i]) {
        sws(s, i + 1)
    } else {
        i
    }
}

pub proof fn lemma_sws_bounds(s: Seq<u8>, i: int)
    requires
        0 <= i <= s.len(),
    ensures
        i <= sws(s, i) <= s.len(),
        forall|j: int| i <= j < sws(s, i) ==> json_ws(s[j]),
        sws(s, i) < s.len() ==> !json_ws(s[sws(s, i)]),
    decreases s.len() - i,
{
    if i < s.len() && json_ws(s[i]) {
        lemma_sws_bounds(s, i + 1);
    }
}

/// Advance past JSON whitespace.
pub fn skip_ws(s: &Vec<u8>, i: usize) -> (r: usize)
    requires
        i <= s.len(),
    ensures
        r == sws(s@, i as int),
        i <= r <= s.len(),
{
    proof {
        lemma_sws_bounds(s@, i as int);
    }
    let mut j: usize = i;
    while j < s.len() && json_ws_b(s[j])
        invariant
            i <= j <= s.len(),
            sws(s@, i as int) == sws(s@, j as int),
        decreases s.len() - j,
    {
        j = j + 1;
    }
    j
}

pub fn json_ws_b(b: u8) -> (r: bool)
    ensures
        r == json_ws(b),
{
    b == 32 || b == 9 || b == 10 || b == 13
}

/// Value of an ASCII hex digit, or -1.
pub open spec fn hex_val(b: u8) -> int {
    if 48 <= b <= 57 {
        b - 48
    } else if 97 <= b <= 102 {
        b - 87
    } else if 65 <= b <= 70 {
        b - 55
    } else {
        -1
    }
}

/// The four-digit hex number at `i`, or -1 if any digit is invalid.
pub open spec fn hex4(s: Seq<u8>, i: int) -> int {
    if !(0 <= i && i + 4 <= s.len()) {
        -1
    } else {
        let a = hex_val(s[i]);
        let b = hex_val(s[i + 1]);
        let c = hex_val(s[i + 2]);
        let d = hex_val(s[i + 3]);
        if a < 0 || b < 0 || c < 0 || d < 0 {
            -1
        } else {
            a * 4096 + b * 256 + c * 16 + d
        }
    }
}

pub fn hex_val_b(b: u8) -> (r: i32)
    ensures
        r == hex_val(b),
{
    if 48 <= b && b <= 57 {
        (b - 48) as i32
    } else if 97 <= b && b <= 102 {
        (b - 87) as i32
    } else if 65 <= b && b <= 70 {
        (b - 55) as i32
    } else {
        -1
    }
}

pub fn hex4_b(s: &Vec<u8>, i: usize) -> (r: i32)
    ensures
        r == hex4(s@, i as int),
        -1 <= r < 0x10000,
{
    if i > s.len() || s.len() - i < 4 {
        return -1;
    }
    let a = hex_val_b(s[i]);
    let b = hex_val_b(s[i + 1]);
    let c = hex_val_b(s[i + 2]);
    let d = hex_val_b(s[i + 3]);
    if a < 0 || b < 0 || c < 0 || d < 0 {
        -1
    } else {
        a * 4096 + b * 256 + c * 16 + d
    }
}

/// UTF-8 encoding of the scalar value `cp`.
pub open spec fn utf8_enc(cp: int) -> Seq<u8> {
    if cp < 0x80 {
        seq![cp as u8]
    } else if cp < 0x800 {
        seq![(0xC0 + cp / 0x40) as u8, (0x80 + cp % 0x40) as u8]
    } else if cp < 0x10000 {
        seq![(0xE0 + cp / 0x1000) as u8, (0x80 + (cp / 0x40) % 0x40) as u8, (0x80 + cp % 0x40) as u8]
    } else {
        seq![
            (0xF0 + cp / 0x40000) as u8,
            (0x80 + (cp / 0x1000) % 0x40) as u8,
            (0x80 + (cp / 0x40) % 0x40) as u8,
            (0x80 + cp % 0x40) as u8,
        ]
    }
}

pub fn utf8_enc_b(cp: u32) -> (r: Vec<u8>)
    requires
        cp < 0x110000,
    ensures
        r@ == utf8_enc(cp as int),
{
    let mut r: Vec<u8> = Vec::new();
    if cp < 0x80 {
        r.push(cp as u8);
        assert(r@ =~= utf8_enc(cp as int));
    } else if cp < 0x800 {
        assert(cp / 0x40 < 0x20) by (nonlinear_arith)
            requires
                cp < 0x800,
        ;
        r.push((0xC0 + cp / 0x40) as u8);
        r.push((0x80 + cp % 0x40) as u8);
        assert(r@ =~= utf8_enc(cp as int));
    } else if cp < 0x10000 {
        assert(cp / 0x1000 < 0x10) by (nonlinear_arith)
            requires
                cp < 0x10000,
        ;
        r.push((0xE0 + cp / 0x1000) as u8);
        r.push((0x80 + (cp / 0x40) % 0x40) as u8);
        r.push((0x80 + cp % 0x40) as u8);
        assert(r@ =~= utf8_enc(cp as int));
    } else {
        assert(cp / 0x40000 < 5) by (nonlinear_arith)
            requires
                cp < 0x110000,
        ;
        r.push((0xF0 + cp / 0x40000) as u8);
        r.push((0x80 + (cp / 0x1000) % 0x40) as u8);
        r.push((0x80 + (cp / 0x40) % 0x40) as u8);
        r.push((0x80 + cp % 0x40) as u8);
        assert(r@ =~= utf8_enc(cp as int));
    }
    r
}

/// The decoded byte stood for by the single-character escape `\e`, if any.
pub open spec fn esc_byte(e: u8) -> Option<u8> {
    if e == QUOTE {
        Some(QUOTE)
    } else if e == BSL {
        Some(BSL)
    } else if e == 47 {
        Some(47u8)
    } else if e == 98 {
        Some(8u8)
    } else if e == 102 {
        Some(12u8)
    } else if e == 110 {
        Some(10u8)
    } else if e == 114 {
        Some(13u8)
    } else if e == 116 {
        Some(9u8)
    } else {
        None
    }
}

pub fn esc_byte_b(e: u8) -> (r: Option<u8>)
    ensures
        r == esc_byte(e),
{
    if e == QUOTE {
        Some(QUOTE)
    } else if e == BSL {
        Some(BSL)
    } else if e == 47 {
        Some(47u8)
    } else if e == 98 {
        Some(8u8)
    } else if e == 102 {
        Some(12u8)
    } else if e == 110 {
        Some(10u8)
    } else if e == 114 {
        Some(13u8)
    } else if e == 116 {
        Some(9u8)
    } else {
        None
    }
}

/// Decode a JSON string body starting just after the opening quote.
/// Returns the decoded bytes and the position after the closing quote.
/// Control bytes must be escaped; `\uXXXX` escapes decode to UTF-8, with
/// surrogate pairs combined and lone surrogates rejected.
pub open spec fn ps_string_body(s: Seq<u8>, i: int) -> Option<(Seq<u8>, int)>
    decreases s.len() - i,
{
    if i < 0 || i >= s.len() {
        None
    } else {
        let b = s[i];
        if b == QUOTE {
            Some((Seq::empty(), i + 1))
        } else if b == BSL {
            if i + 1 >= s.len() {
                None
            } else {
                let e = s[i + 1];
                if e == 117 {
                    let h = hex4(s, i + 2);
                    if h < 0 {
                        None
                    } else if 0xD800 <= h < 0xDC00 {
                        if i + 12 <= s.len() && s[i + 6] == BSL && s[i + 7] == 117 {
                            let l = hex4(s, i + 8);
                            if 0xDC00 <= l < 0xE000 {
                                let cp = 0x10000 + (h - 0xD800) * 0x400 + (l - 0xDC00);
                                match ps_string_body(s, i + 12) {
                                    Some((rest, k)) => Some((utf8_enc(cp) + rest, k)),
                                    None => None,
                                }
                            } else {
                                None
                            }
                        } else {
                            None
                        }
                    } else if 0xDC00 <= h < 0xE000 {
                        None
                    } else {
                        match ps_string_body(s, i + 6) {
                            Some((rest, k)) => Some((utf8_enc(h) + rest, k)),
                            None => None,
                        }
                    }
                } else {
                    match esc_byte(e) {
                        Some(pb) => match ps_string_body(s, i + 2) {
                            Some((rest, k)) => Some((seq![pb] + rest, k)),
                            None => None,
                        },
                        None => None,
                    }
                }
            }
        } else if b < 32 {
            None
        } else {
            match ps_string_body(s, i + 1) {
                Some((rest, k)) => Some((seq![b] + rest, k)),
                None => None,
            }
        }
    }
}

pub proof fn lemma_ps_string_body_bounds(s: Seq<u8>, i: int)
    requires
        0 <= i <= s.len(),
    ensures
        match ps_string_body(s, i) {
            Some((c, j)) => i < j <= s.len(),
            None => true,
        },
    decreases s.len() - i,
{
    if i < s.len() {
        let b = s[i];
        if b == BSL && i + 1 < s.len() {
            let e = s[i + 1];
            if e == 117 {
                let h = hex4(s, i + 2);
                if h >= 0 && 0xD800 <= h < 0xDC00 {
                    if i + 12 <= s.len() {
                        lemma_ps_string_body_bounds(s, i + 12);
                    }
                } else if h >= 0 && !(0xDC00 <= h < 0xE000) {
                    assert(i + 6 <= s.len());
                    lemma_ps_string_body_bounds(s, i + 6);
                }
            } else {
                if i + 2 <= s.len() {
                    lemma_ps_string_body_bounds(s, i + 2);
                }
            }
        } else if b != QUOTE && b >= 32 {
            lemma_ps_string_body_bounds(s, i + 1);
        }
    }
}

/// Holds when the executable string result matches the specification one.
pub open spec fn str_result_matches(r: Option<(Vec<u8>, usize)>, t: Option<(Seq<u8>, int)>) -> bool {
    match r {
        Some((v, j)) => t is Some && (t->0).0 == v@ && (t->0).1 == j as int,
        None => t is None,
    }
}

/// Decode a string body; mirrors `ps_string_body`.
pub fn read_string_body(s: &Vec<u8>, i: usize) -> (r: Option<(Vec<u8>, usize)>)
    requires
        i <= s.len(),
    ensures
        str_result_matches(r, ps_string_body(s@, i as int)),
        r is Some ==> i < (r->0).1 <= s.len(),
    decreases s.len() - i,
{
    proof {
        lemma_ps_string_body_bounds(s@, i as int);
    }
    if i >= s.len() {
        return None;
    }
    let b = s[i];
    if b == QUOTE {
        let v: Vec<u8> = Vec::new();
        assert(v@ =~= Seq::<u8>::empty());
        return Some((v, i + 1));
    }
    if b == BSL {
        if i + 1 >= s.len() {
            return None;
        }
        let e = s[i + 1];
        if e == 117 {
            let h = hex4_b(s, i + 2);
            if h < 0 {
                return None;
            }
            if 0xD800 <= h && h < 0xDC00 {
                if s.len() - i >= 12 && s[i + 6] == BSL && s[i + 7] == 117 {
                    let l = hex4_b(s, i + 8);
                    if 0xDC00 <= l && l < 0xE000 {
                        let cp: u32 = 0x10000 + (h as u32 - 0xD800) * 0x400 + (l as u32 - 0xDC00);
                        match read_string_body(s, i + 12) {
                            Some((rest, k)) => {
                                let mut out = utf8_enc_b(cp);
                                let mut rest = rest;
                                out.append(&mut rest);
                                return Some((out, k));
                            },
                            None => {
                                return None;
                            },
                        }
                    } else {
                        return None;
                    }
                } else {
                    return None;
                }
            }
            if 0xDC00 <= h && h < 0xE000 {
                return None;
            }
            match read_string_body(s, i + 6) {
                Some((rest, k)) => {
                    let mut out = utf8_enc_b(h as u32);
                    let mut rest = rest;
                    out.append(&mut rest);
                    return Some((out, k));
                },
                None => {
                    return None;
                },
            }
        } else {
            match esc_byte_b(e) {
                Some(pb) => match read_string_body(s, i + 2) {
                    Some((rest, k)) => {
                        let mut out: Vec<u8> = Vec::new();
                        out.push(pb);
                        let mut rest = rest;
                        out.append(&mut rest);
                        assert(out@ =~= seq![pb] + (ps_string_body(s@, i as int + 2)->0).0);
                        return Some((out, k));
                    },
                    None => {
                        return None;
                    },
                },
                None => {
                    return None;
                },
            }
        }
    } else if b < 32 {
        return None;
    } else {
        match read_string_body(s, i + 1) {
            Some((rest, k)) => {
                let mut out: Vec<u8> = Vec::new();
                out.push(b);
                let mut rest = rest;
                out.append(&mut rest);
                assert(out@ =~= seq![b] + (ps_string_body(s@, i as int + 1)->0).0);
                return Some((out, k));
            },
            None => {
                return None;
            },
        }
    }
}

/// Position of the first byte from `i` on that is not an ASCII digit.
pub open spec fn first_non_digit(s: Seq<u8>, i: int) -> int
    decreases s.len() - i,
{
    if i < 0 || i >= s.len() {
        i
    } else if 48 <= s[i] <= 57 {
        first_non_digit(s, i + 1)
    } else {
        i
    }
}

pub proof fn lemma_first_non_digit_bounds(s: Seq<u8>, i: int)
    requires
        0 <= i <= s.len(),
    ensures
        i <= first_non_digit(s, i) <= s.len(),
    decreases s.len() - i,
{
    if i < s.len() && 48 <= s[i] <= 57 {
        lemma_first_non_digit_bounds(s, i + 1);
    }
}

pub fn scan_digits(s: &Vec<u8>, i: usize) -> (r: usize)
    requires
        i <= s.len(),
    ensures
        r == first_non_digit(s@, i as int),
        i <= r <= s.len(),
{
    proof {
        lemma_first_non_digit_bounds(s@, i as int);
    }
    let mut j: usize = i;
    while j < s.len() && 48 <= s[j] && s[j] <= 57
        invariant
            i <= j <= s.len(),
            first_non_digit(s@, i as int) == first_non_digit(s@, j as int),
        decreases s.len() - j,
    {
        j = j + 1;
    }
    j
}

/// End position of the optional exponent part starting at `j`.
pub open spec fn ps_exp_end(s: Seq<u8>, j: int) -> Option<int> {
    if 0 <= j < s.len() && (s[j] == 101 || s[j] == 69) {
        let k0 = if j + 1 < s.len() && (s[j + 1] == 43 || s[j + 1] == 45) {
            j + 2
        } else {
            j + 1
        };
        let k = first_non_digit(s, k0);
        if k == k0 {
            None
        } else {
            Some(k)
        }
    } else {
        Some(j)
    }
}

/// End position of the optional fraction part then exponent, starting at `j`.
pub open spec fn ps_frac_exp_end(s: Seq<u8>, j: int) -> Option<int> {
    if 0 <= j < s.len() && s[j] == 46 {
        let k = first_non_digit(s, j + 1);
        if k == j + 1 {
            None
        } else {
            ps_exp_end(s, k)
        }
    } else {
        ps_exp_end(s, j)
    }
}

/// End position of the JSON number starting at `i`, if one starts there.
pub open spec fn ps_number_end(s: Seq<u8>, i: int) -> Option<int> {
    if !(0 <= i < s.len()) {
        None
    } else {
        let j0 = if s[i] == 45 {
            i + 1
        } else {
            i
        };
        if !(j0 < s.len()) {
            None
        } else if s[j0] == 48 {
            ps_frac_exp_end(s, j0 + 1)
        } else if 49 <= s[j0] <= 57 {
            ps_frac_exp_end(s, first_non_digit(s, j0))
        } else {
            None
        }
    }
}

pub fn read_exp_end(s: &Vec<u8>, j: usize) -> (r: Option<usize>)
    requires
        j <= s.len(),
    ensures
        pos_matches(r, ps_exp_end(s@, j as int)),
{
    if j < s.len() && (s[j] == 101 || s[j] == 69) {
        let k0: usize = if j + 1 < s.len() && (s[j + 1] == 43 || s[j + 1] == 45) {
            j + 2
        } else {
            j + 1
        };
        let k = scan_digits(s, k0);
        if k == k0 {
            None
        } else {
            Some(k)
        }
    } else {
        Some(j)
    }
}

pub fn read_frac_exp_end(s: &Vec<u8>, j: usize) -> (r: Option<usize>)
    requires
        j <= s.len(),
    ensures
        pos_matches(r, ps_frac_exp_end(s@, j as int)),
{
    if j < s.len() && s[j] == 46 {
        let k = scan_digits(s, j + 1);
        if k == j + 1 {
            None
        } else {
            read_exp_end(s, k)
        }
    } else {
        read_exp_end(s, j)
    }
}

pub fn read_number_end(s: &Vec<u8>, i: usize) -> (r: Option<usize>)
    requires
        i <= s.len(),
    ensures
        pos_matches(r, ps_number_end(s@, i as int)),
{
    if !(i < s.len()) {
        return None;
    }
    let j0: usize = if s[i] == 45 {
        i + 1
    } else {
        i
    };
    if !(j0 < s.len()) {
        None
    } else if s[j0] == 48 {
        read_frac_exp_end(s, j0 + 1)
    } else if 49 <= s[j0] && s[j0] <= 57 {
        let k = scan_digits(s, j0);
        read_frac_exp_end(s, k)
    } else {
        None
    }
}

/// Holds when the executable position result matches the specification one.
pub open spec fn pos_matches(r: Option<usize>, t: Option<int>) -> bool {
    match r {
        Some(j) => t == Some(j as int),
        None => t is None,
    }
}

/// Walk past one JSON value of any shape, starting at its first byte.
/// Used to ignore the values of unrecognized manifest fields.
pub open spec fn skip_value(s: Seq<u8>, i: int) -> Option<int>
    decreases s.len() - i, 0int,
{
    if !(0 <= i < s.len()) {
        None
    } else {
        let b = s[i];
        if b == QUOTE {
            match ps_string_body(s, i + 1) {
                Some((c, j)) => Some(j),
                None => None,
            }
        } else if b == 116 {
            if i + 4 <= s.len() && s[i + 1] == 114 && s[i + 2] == 117 && s[i + 3] == 101 {
                Some(i + 4)
            } else {
                None
            }
        } else if b == 102 {
            if i + 5 <= s.len() && s[i + 1] == 97 && s[i + 2] == 108 && s[i + 3] == 115 && s[i + 4]
                == 101 {
                Some(i + 5)
            } else {
                None
            }
        } else if b == 110 {
            if i + 4 <= s.len() && s[i + 1] == 117 && s[i + 2] == 108 && s[i + 3] == 108 {
                Some(i + 4)
            } else {
                None
            }
        } else if b == 45 || (48 <= b <= 57) {
            ps_number_end(s, i)
        } else if b == 91 {
            skip_elems(s, i + 1, true)
        } else if b == 123 {
            skip_members(s, i + 1, true)
        } else {
            None
        }
    }
}

/// Walk past array elements from just after `[` or `,` to just after `]`.
pub open spec fn skip_elems(s: Seq<u8>, i: int, first: bool) -> Option<int>
    decreases s.len() - i, 1int,
{
    if !(0 <= i <= s.len()) {
        None
    } else {
        let j = sws(s, i);
        if !(i <= j < s.len()) {
            None
        } else if s[j] == 93 && first {
            Some(j + 1)
        } else {
            match skip_value(s, j) {
                None => None,
                Some(k) => {
                    if !(j < k <= s.len()) {
                        None
                    } else {
                        let m = sws(s, k);
                        if !(k <= m < s.len()) {
                            None
                        } else if s[m] == 93 {
                            Some(m + 1)
                        } else if s[m] == 44 {
                            skip_elems(s, m + 1, false)
                        } else {
                            None
                        }
                    }
                },
            }
        }
    }
}

/// Walk past object members from just after `{` or `,` to just after `}`.
pub open spec fn skip_members(s: Seq<u8>, i: int, first: bool) -> Option<int>
    decreases s.len() - i, 1int,
{
    if !(0 <= i <= s.len()) {
        None
    } else {
        let j = sws(s, i);
        if !(i <= j < s.len()) {
            None
        } else if s[j] == 125 && first {
            Some(j + 1)
        } else if s[j] != QUOTE {
            None
        } else {
            match ps_string_body(s, j + 1) {
                None => None,
                Some((key, k)) => {
                    if !(j < k <= s.len()) {
                        None
                    } else {
                        let m = sws(s, k);
                        if !(k <= m < s.len()) {
                            None
                        } else if s[m] != 58 {
                            None
                        } else {
                            let v0 = sws(s, m + 1);
                            if !(m < v0 <= s.len()) {
                                None
                            } else {
                                match skip_value(s, v0) {
                                    None => None,
                                    Some(k2) => {
                                        if !(v0 < k2 <= s.len()) {
                                            None
                                        } else {
                                            let m2 = sws(s, k2);
                                            if !(k2 <= m2 < s.len()) {
                                                None
                                            } else if s[m2] == 125 {
                                                Some(m2 + 1)
                                            } else if s[m2] == 44 {
                                                skip_members(s, m2 + 1, false)
                                            } else {
                                                None
                                            }
                                        }
                                    },
                                }
                            }
                        }
                    }
                },
            }
        }
    }
}

/// Mirrors `skip_value`.
pub fn skip_value_b(s: &Vec<u8>, i: usize) -> (r: Option<usize>)
    requires
        i <= s.len(),
    ensures
        pos_matches(r, skip_value(s@, i as int)),
    decreases s.len() - i, 0int,
{
    if !(i < s.len()) {
        return None;
    }
    let b = s[i];
    if b == QUOTE {
        match read_string_body(s, i + 1) {
            Some((c, j)) => Some(j),
            None => None,
        }
    } else if b == 116 {
        if s.len() - i >= 4 && s[i + 1] == 114 && s[i + 2] == 117 && s[i + 3] == 101 {
            Some(i + 4)
        } else {
            None
        }
    } else if b == 102 {
        if s.len() - i >= 5 && s[i + 1] == 97 && s[i + 2] == 108 && s[i + 3] == 115 && s[i + 4]
            == 101 {
            Some(i + 5)
        } else {
            None
        }
    } else if b == 110 {
        if s.len() - i >= 4 && s[i + 1] == 117 && s[i + 2] == 108 && s[i + 3] == 108 {
            Some(i + 4)
        } else {
            None
        }
    } else if b == 45 || (48 <= b && b <= 57) {
        read_number_end(s, i)
    } else if b == 91 {
        skip_elems_b(s, i + 1, true)
    } else if b == 123 {
        skip_members_b(s, i + 1, true)
    } else {
        None
    }
}

/// Mirrors `skip_elems`.
pub fn skip_elems_b(s: &Vec<u8>, i: usize, first: bool) -> (r: Option<usize>)
    requires
        i <= s.len(),
    ensures
        pos_matches(r, skip_elems(s@, i as int, first)),
    decreases s.len() - i, 1int,
{
    let j = skip_ws(s, i);
    if !(j < s.len()) {
        return None;
    }
    if s[j] == 93 && first {
        return Some(j + 1);
    }
    match skip_value_b(s, j) {
        None => None,
        Some(k) => {
            if !(j < k && k <= s.len()) {
                return None;
            }
            let m = skip_ws(s, k);
            if !(m < s.len()) {
                return None;
            }
            if s[m] == 93 {
                Some(m + 1)
            } else if s[m] == 44 {
                skip_elems_b(s, m + 1, false)
            } else {
                None
            }
        },
    }
}

/// Mirrors `skip_members`.
pub fn skip_members_b(s: &Vec<u8>, i: usize, first: bool) -> (r: Option<usize>)
    requires
        i <= s.len(),
    ensures
        pos_matches(r, skip_members(s@, i as int, first)),
    decreases s.len() - i, 1int,
{
    let j = skip_ws(s, i);
    if !(j < s.len()) {
        return None;
    }
    if s[j] == 125 && first {
        return Some(j + 1);
    }
    if s[j] != QUOTE {
        return None;
    }
    match read_string_body(s, j + 1) {
        None => None,
        Some((key, k)) => {
            if !(j < k && k <= s.len()) {
                return None;
            }
            let m = skip_ws(s, k);
            if !(m < s.len()) {
                return None;
            }
            if s[m] != 58 {
                return None;
            }
            let v0 = skip_ws(s, m + 1);
            match skip_value_b(s, v0) {
                None => None,
                Some(k2) => {
                    if !(v0 < k2 && k2 <= s.len()) {
                        return None;
                    }
                    let m2 = skip_ws(s, k2);
                    if !(m2 < s.len()) {
                        return None;
                    }
                    if s[m2] == 125 {
                        Some(m2 + 1)
                    } else if s[m2] == 44 {
                        skip_members_b(s, m2 + 1, false)
                    } else {
                        None
                    }
                },
            }
        },
    }
}

/// Collect the elements of an array of strings, from just after `[` or `,`
/// to just after `]`. Any non-string element makes the array invalid.
pub open spec fn ps_strarr_items(s: Seq<u8>, i: int, first: bool) -> Option<(Seq<Seq<u8>>, int)>
    decreases s.len() - i,
{
    if !(0 <= i <= s.len()) {
        None
    } else {
        let j = sws(s, i);
        if !(i <= j < s.len()) {
            None
        } else if s[j] == 93 && first {
            Some((Seq::empty(), j + 1))
        } else if s[j] != QUOTE {
            None
        } else {
            match ps_string_body(s, j + 1) {
                None => None,
                Some((c, k)) => {
                    if !(j < k <= s.len()) {
                        None
                    } else {
                        let m = sws(s, k);
                        if !(k <= m < s.len()) {
                            None
                        } else if s[m] == 93 {
                            Some((seq![c], m + 1))
                        } else if s[m] == 44 {
                            match ps_strarr_items(s, m + 1, false) {
                                None => None,
                                Some((rest, e)) => Some((seq![c] + rest, e)),
                            }
                        } else {
                            None
                        }
                    }
                },
            }
        }
    }
}

/// Holds when the executable string-array result matches the specification.
pub open spec fn strarr_matches(
    r: Option<(Vec<Vec<u8>>, usize)>,
    t: Option<(Seq<Seq<u8>>, int)>,
) -> bool {
    match r {
        Some((v, j)) => t is Some && (t->0).0 == crate::order::entry_views(v@) && (t->0).1
            == j as int,
        None => t is None,
    }
}

/// Mirrors `ps_strarr_items`.
pub fn read_strarr_items(s: &Vec<u8>, i: usize, first: bool) -> (r: Option<(Vec<Vec<u8>>, usize)>)
    requires
        i <= s.len(),
    ensures
        strarr_matches(r, ps_strarr_items(s@, i as int, first)),
    decreases s.len() - i,
{
    let j = skip_ws(s, i);
    if !(j < s.len()) {
        return None;
    }
    if s[j] == 93 && first {
        let v: Vec<Vec<u8>> = Vec::new();
        assert(crate::order::entry_views(v@) =~= Seq::<Seq<u8>>::empty());
        return Some((v, j + 1));
    }
    if s[j] != QUOTE {
        return None;
    }
    match read_string_body(s, j + 1) {
        None => None,
        Some((c, k)) => {
            if !(j < k && k <= s.len()) {
                return None;
            }
            let m = skip_ws(s, k);
            if !(m < s.len()) {
                return None;
            }
            if s[m] == 93 {
                let mut v: Vec<Vec<u8>> = Vec::new();
                v.push(c);
                assert(crate::order::entry_views(v@) =~= seq![(ps_string_body(s@, j as int + 1)->0).0]);
                Some((v, m + 1))
            } else if s[m] == 44 {
                match read_strarr_items(s, m + 1, false) {
                    None => None,
                    Some((rest, e)) => {
                        let ghost spec_rest = (ps_strarr_items(s@, m as int + 1, false)->0).0;
                        let mut v: Vec<Vec<u8>> = Vec::new();
                        v.push(c);
                        let mut rest = rest;
                        v.append(&mut rest);
                        assert(crate::order::entry_views(v@) =~= seq![(ps_string_body(
                            s@,
                            j as int + 1,
                        )->0).0] + spec_rest);
                        Some((v, e))
                    },
                }
            } else {
                None
            }
        },
    }
}

} // verus!
