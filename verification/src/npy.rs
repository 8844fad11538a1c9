//! Lightweight NumPy `.npy` header parsing for the flat binary importer.
//!
//! Only float32 arrays of shape `(N, D)` are supported. The format, in
//! short: the magic bytes `\x93NUMPY`, a two-byte version, a little-endian
//! header length (two bytes in version one, four bytes above it), then a
//! Python-dict header text describing dtype, order and shape, then the raw
//! data. A truncated or malformed buffer is rejected with an error, never a
//! crash.

use vstd::prelude::*;

use crate::fp::{is_finite, is_finite_bits};
use crate::{ascii_to_string, dec_digits, usize_to_string};

verus! {

/// The `.npy` magic bytes: 0x93 then "NUMPY".
pub open spec fn npy_magic() -> Seq<u8> {
    seq![0x93u8, 0x4Eu8, 0x55u8, 0x4Du8, 0x50u8, 0x59u8]
}

/// The parsed shape and flags of a `.npy` header.
#[derive(Debug)]
pub struct NpyHeader {
    pub rows: usize,
    pub cols: usize,
    pub is_fortran_order: bool,
    pub dtype_is_float32: bool,
}

/// What can go wrong while reading a `.npy` header.
#[derive(Debug)]
pub enum NpyError {
    BadMagic,
    UnsupportedVersion(u8, u8),
    ParseError(String),
    UnsupportedDtype(String),
    WrongShape,
}

impl NpyError {
    /// The text of each error.
    pub open spec fn message_spec(&self) -> Seq<char> {
        match self {
            NpyError::BadMagic => "Not a .npy file (bad magic bytes)"@,
            NpyError::UnsupportedVersion(maj, min) => "Unsupported .npy version "@ + dec_digits(
                *maj as nat,
            ) + "."@ + dec_digits(*min as nat),
            NpyError::ParseError(s) => "Header parse error: "@ + s@,
            NpyError::UnsupportedDtype(s) => "Unsupported dtype: "@ + s@ + " (need float32)"@,
            NpyError::WrongShape => "Array must be 2-D (N, D)"@,
        }
    }

    /// Render the error as human-readable text.
    pub fn message(&self) -> (r: String)
        ensures
            r@ == self.message_spec(),
    {
        match self {
            NpyError::BadMagic => "Not a .npy file (bad magic bytes)".to_owned(),
            NpyError::UnsupportedVersion(maj, min) => {
                let mut s = "Unsupported .npy version ".to_owned();
                let a = usize_to_string(*maj as usize);
                s.append(a.as_str());
                s.append(".");
                let b = usize_to_string(*min as usize);
                s.append(b.as_str());
                s
            },
            NpyError::ParseError(m) => {
                let mut s = "Header parse error: ".to_owned();
                s.append(m.as_str());
                s
            },
            NpyError::UnsupportedDtype(m) => {
                let mut s = "Unsupported dtype: ".to_owned();
                s.append(m.as_str());
                s.append(" (need float32)");
                s
            },
            NpyError::WrongShape => "Array must be 2-D (N, D)".to_owned(),
        }
    }
}

/// The needle occurs in the haystack at this position.
pub open spec fn match_at(h: Seq<u8>, needle: Seq<u8>, at: int) -> bool {
    0 <= at && at + needle.len() <= h.len() && h.subrange(at, at + needle.len()) == needle
}

/// The needle occurs somewhere in the haystack.
pub open spec fn bytes_contain(h: Seq<u8>, needle: Seq<u8>) -> bool {
    exists|at: int| match_at(h, needle, at)
}

/// Find the first occurrence of the needle.
fn find_bytes(h: &[u8], needle: &[u8]) -> (r: Option<usize>)
    ensures
        match r {
            Some(i) => match_at(h@, needle@, i as int) && forall|j: int|
                0 <= j < i ==> !match_at(h@, needle@, j),
            None => !bytes_contain(h@, needle@),
        },
{
    if needle.len() > h.len() {
        proof {
            assert forall|at: int| !match_at(h@, needle@, at) by {}
        }
        return None;
    }
    if needle.len() == 0 {
        proof {
            assert(h@.subrange(0, 0) =~= needle@);
        }
        return Some(0);
    }
    let mut i: usize = 0;
    while i <= h.len() - needle.len()
        invariant
            0 < needle@.len() <= h@.len(),
            i <= h@.len() - needle@.len() + 1,
            forall|j: int| 0 <= j < i ==> !match_at(h@, needle@, j),
        decreases h@.len() + 1 - i,
    {
        let mut k: usize = 0;
        let mut all: bool = true;
        while k < needle.len()
            invariant
                all ==> forall|t: int| 0 <= t < k ==> h@[i + t] == needle@[t],
                i + needle@.len() <= h@.len(),
                h@.len() <= usize::MAX,
                k <= needle@.len(),
                !all ==> !match_at(h@, needle@, i as int),
            decreases needle@.len() - k,
        {
            if h[i + k] != needle[k] {
                proof {
                    if match_at(h@, needle@, i as int) {
                        assert(h@.subrange(i as int, i + needle@.len())[k as int] == needle@[k as int]);
                    }
                }
                all = false;
            }
            k = k + 1;
        }
        if all {
            proof {
                assert(h@.subrange(i as int, i + needle@.len()) =~= needle@);
            }
            return Some(i);
        }
        i = i + 1;
    }
    proof {
        assert forall|at: int| !match_at(h@, needle@, at) by {
            if 0 <= at && at + needle@.len() <= h@.len() {
                assert(at < i);
            }
        }
    }
    None
}

/// An ASCII space or control byte counted as whitespace by the trimmer.
pub open spec fn is_ws(b: u8) -> bool {
    b == 32 || b == 9 || b == 10 || b == 13 || b == 11 || b == 12
}

/// The sequence with leading whitespace removed.
pub open spec fn trim_front(s: Seq<u8>) -> Seq<u8>
    decreases s.len(),
{
    if s.len() > 0 && is_ws(s[0]) {
        trim_front(s.drop_first())
    } else {
        s
    }
}

/// The sequence with trailing whitespace removed.
pub open spec fn trim_back(s: Seq<u8>) -> Seq<u8>
    decreases s.len(),
{
    if s.len() > 0 && is_ws(s[s.len() - 1]) {
        trim_back(s.drop_last())
    } else {
        s
    }
}

/// The sequence with whitespace removed at both ends.
pub open spec fn trim_of(s: Seq<u8>) -> Seq<u8> {
    trim_back(trim_front(s))
}

proof fn lemma_trim_front_skip(s: Seq<u8>, a: int)
    requires
        0 <= a <= s.len(),
        forall|j: int| 0 <= j < a ==> is_ws(s[j]),
        a == s.len() || !is_ws(s[a]),
    ensures
        trim_front(s) == s.skip(a),
    decreases a,
{
    if a == 0 {
        assert(s.skip(0) =~= s);
    } else {
        lemma_trim_front_skip(s.drop_first(), a - 1);
        assert(s.drop_first().skip(a - 1) =~= s.skip(a));
    }
}

proof fn lemma_trim_back_take(s: Seq<u8>, b: int)
    requires
        0 <= b <= s.len(),
        forall|j: int| b <= j < s.len() ==> is_ws(s[j]),
        b == 0 || !is_ws(s[b - 1]),
    ensures
        trim_back(s) == s.take(b),
    decreases s.len() - b,
{
    if b == s.len() {
        assert(s.take(b) =~= s);
    } else {
        lemma_trim_back_take(s.drop_last(), b);
        assert(s.drop_last().take(b) =~= s.take(b));
    }
}

/// A decimal digit byte.
pub open spec fn is_digit(b: u8) -> bool {
    48 <= b <= 57
}

/// Fold decimal digit bytes into a number: `None` on an empty text, a
/// non-digit byte, or overflow past `usize::MAX`.
pub open spec fn parse_usize_scan(s: Seq<u8>, i: int, acc: Option<usize>) -> Option<usize>
    decreases s.len() - i,
{
    if i < 0 || i >= s.len() {
        acc
    } else {
        match acc {
            None => None,
            Some(a) => {
                if !is_digit(s[i]) {
                    None
                } else {
                    let v = (a as int) * 10 + (s[i] - 48);
                    if v > usize::MAX {
                        None
                    } else {
                        parse_usize_scan(s, i + 1, Some(v as usize))
                    }
                }
            },
        }
    }
}

/// The number the digit bytes denote, if they are exactly one non-empty run
/// of decimal digits whose value fits `usize`.
pub open spec fn parse_usize_of(s: Seq<u8>) -> Option<usize> {
    if s.len() == 0 {
        None
    } else {
        parse_usize_scan(s, 0, Some(0))
    }
}

/// Parse a run of decimal digit bytes.
fn parse_usize_bytes(s: &[u8]) -> (r: Option<usize>)
    ensures
        r == parse_usize_of(s@),
{
    if s.len() == 0 {
        return None;
    }
    let mut acc: usize = 0;
    let mut i: usize = 0;
    while i < s.len()
        invariant
            i <= s@.len(),
            s@.len() > 0,
            parse_usize_scan(s@, 0, Some(0usize)) == parse_usize_scan(s@, i as int, Some(acc)),
        decreases s@.len() - i,
    {
        let b = s[i];
        if b < 48 || b > 57 {
            proof {
                assert(parse_usize_scan(s@, i as int, Some(acc)) == None::<usize>);
            }
            return None;
        }
        let d = (b - 48) as usize;
        if acc > (usize::MAX - d) / 10 {
            proof {
                assert((acc as int) * 10 + d > usize::MAX) by (nonlinear_arith)
                    requires
                        acc as int > ((usize::MAX - d) as int) / 10,
                        0 <= d <= 9,
                ;
            }
            return None;
        }
        proof {
            assert((acc as int) * 10 + d <= usize::MAX) by (nonlinear_arith)
                requires
                    acc as int <= ((usize::MAX - d) as int) / 10,
                    0 <= d <= 9,
            ;
        }
        acc = acc * 10 + d;
        i = i + 1;
    }
    Some(acc)
}

/// The position of the first occurrence of the needle (meaningful when
/// `bytes_contain` holds; the first occurrence is unique).
pub open spec fn first_match(h: Seq<u8>, needle: Seq<u8>) -> int {
    choose|at: int|
        match_at(h, needle, at) && (forall|j: int| 0 <= j < at ==> !match_at(h, needle, j))
}

proof fn lemma_first_match_is(h: Seq<u8>, needle: Seq<u8>, i: int)
    requires
        match_at(h, needle, i),
        forall|j: int| 0 <= j < i ==> !match_at(h, needle, j),
    ensures
        first_match(h, needle) == i,
{
    let w = first_match(h, needle);
    assert(match_at(h, needle, w) && (forall|j: int| 0 <= j < w ==> !match_at(h, needle, j)));
    if w < i {
        assert(!match_at(h, needle, w));
    }
    if i < w {
        assert(!match_at(h, needle, i));
    }
}

/// Collect dimension numbers from comma-separated byte segments: each
/// segment is trimmed and kept only if it parses as a number.
pub open spec fn seg_dim(seg: Seq<u8>) -> Seq<usize> {
    match parse_usize_of(trim_of(seg)) {
        Some(d) => seq![d],
        None => Seq::empty(),
    }
}

/// One left-to-right pass over the shape text: bytes accumulate into the
/// current segment, a comma closes it.
pub open spec fn dims_scan(s: Seq<u8>, i: int, cur: Seq<u8>, acc: Seq<usize>) -> Seq<usize>
    decreases s.len() - i,
{
    if i < 0 || i >= s.len() {
        acc + seg_dim(cur)
    } else if s[i] == 44 {
        dims_scan(s, i + 1, Seq::empty(), acc + seg_dim(cur))
    } else {
        dims_scan(s, i + 1, cur.push(s[i]), acc)
    }
}

/// The numbers the comma-separated shape text denotes; segments that do not
/// parse are skipped, not rejected.
pub open spec fn dims_of(s: Seq<u8>) -> Seq<usize> {
    dims_scan(s, 0, Seq::empty(), Seq::empty())
}

/// Copy a range of a byte slice.
fn copy_range(s: &[u8], from: usize, to: usize) -> (r: Vec<u8>)
    requires
        from <= to <= s@.len(),
    ensures
        r@ == s@.subrange(from as int, to as int),
{
    let mut out: Vec<u8> = Vec::new();
    let mut i: usize = from;
    while i < to
        invariant
            from <= i <= to <= s@.len(),
            out@ == s@.subrange(from as int, i as int),
        decreases to - i,
    {
        out.push(s[i]);
        proof {
            assert(out@ =~= s@.subrange(from as int, i + 1));
        }
        i = i + 1;
    }
    out
}

/// Trim ASCII whitespace from both ends.
fn trim_vec(s: &Vec<u8>) -> (r: Vec<u8>)
    ensures
        r@ == trim_of(s@),
{
    let mut a: usize = 0;
    while a < s.len() && (s[a] == 32 || s[a] == 9 || s[a] == 10 || s[a] == 13 || s[a] == 11 || s[a]
        == 12)
        invariant
            a <= s@.len(),
            forall|j: int| 0 <= j < a ==> is_ws(s@[j]),
        decreases s@.len() - a,
    {
        a = a + 1;
    }
    proof {
        lemma_trim_front_skip(s@, a as int);
    }
    let mut b: usize = s.len();
    while b > a && (s[b - 1] == 32 || s[b - 1] == 9 || s[b - 1] == 10 || s[b - 1] == 13 || s[b - 1]
        == 11 || s[b - 1] == 12)
        invariant
            a <= b <= s@.len(),
            forall|j: int| b <= j < s@.len() ==> is_ws(s@[j]),
        decreases b,
    {
        b = b - 1;
    }
    proof {
        let fr = s@.skip(a as int);
        assert forall|j: int| b - a <= j < fr.len() implies is_ws(fr[j]) by {
            assert(fr[j] == s@[a + j]);
        }
        if b > a {
            assert(fr[b - a - 1] == s@[b - 1]);
        }
        lemma_trim_back_take(fr, b - a);
        assert(fr.take(b - a) =~= s@.subrange(a as int, b as int));
    }
    let mut out: Vec<u8> = Vec::new();
    let mut i: usize = a;
    while i < b
        invariant
            a <= i <= b <= s@.len(),
            out@ == s@.subrange(a as int, i as int),
        decreases b - i,
    {
        out.push(s[i]);
        proof {
            assert(out@ =~= s@.subrange(a as int, i + 1));
        }
        i = i + 1;
    }
    out
}

/// Parse the comma-separated shape text into dimension numbers.
fn parse_dims(inner: &Vec<u8>) -> (r: Vec<usize>)
    ensures
        r@ == dims_of(inner@),
{
    let mut dims: Vec<usize> = Vec::new();
    let mut cur: Vec<u8> = Vec::new();
    let mut i: usize = 0;
    while i < inner.len()
        invariant
            i <= inner@.len(),
            dims_of(inner@) == dims_scan(inner@, i as int, cur@, dims@),
        decreases inner@.len() - i,
    {
        let b = inner[i];
        if b == 44 {
            let ghost dims0 = dims@;
            let ghost cur0 = cur@;
            let t = trim_vec(&cur);
            match parse_usize_bytes(t.as_slice()) {
                Some(d) => dims.push(d),
                None => {},
            }
            cur = Vec::new();
            proof {
                assert(dims@ =~= dims0 + seg_dim(cur0));
            }
        } else {
            cur.push(b);
        }
        i = i + 1;
    }
    let t = trim_vec(&cur);
    match parse_usize_bytes(t.as_slice()) {
        Some(d) => dims.push(d),
        None => {},
    }
    dims
}

/// Relies on std's `str::from_utf8`: it accepts exactly the valid UTF-8
/// byte sequences, as `vstd::utf8::valid_utf8` describes them.
#[verifier::external_body]
fn utf8_ok(b: &[u8]) -> (r: bool)
    ensures
        r == vstd::utf8::valid_utf8(b@),
{
    core::str::from_utf8(b).is_ok()
}

/// The dtype texts accepted as float32: `'<f4'`, `"<f4"`, `'>f4'` or
/// `float32`.
pub open spec fn nd_f4_sq() -> Seq<u8> {
    seq![39u8, 60u8, 102u8, 52u8, 39u8]
}

pub open spec fn nd_f4_dq() -> Seq<u8> {
    seq![34u8, 60u8, 102u8, 52u8, 34u8]
}

pub open spec fn nd_f4_be() -> Seq<u8> {
    seq![39u8, 62u8, 102u8, 52u8, 39u8]
}

pub open spec fn nd_float32() -> Seq<u8> {
    seq![102u8, 108u8, 111u8, 97u8, 116u8, 51u8, 50u8]
}

/// The texts marking Fortran order: `'fortran_order': True` with either
/// quoting.
pub open spec fn nd_fortran_sq() -> Seq<u8> {
    seq![
        39u8, 102u8, 111u8, 114u8, 116u8, 114u8, 97u8, 110u8, 95u8, 111u8, 114u8, 100u8, 101u8,
        114u8, 39u8, 58u8, 32u8, 84u8, 114u8, 117u8, 101u8,
    ]
}

pub open spec fn nd_fortran_dq() -> Seq<u8> {
    seq![
        34u8, 102u8, 111u8, 114u8, 116u8, 114u8, 97u8, 110u8, 95u8, 111u8, 114u8, 100u8, 101u8,
        114u8, 34u8, 58u8, 32u8, 84u8, 114u8, 117u8, 101u8,
    ]
}

/// The shape key, `'shape':` with either quoting.
pub open spec fn nd_shape_sq() -> Seq<u8> {
    seq![39u8, 115u8, 104u8, 97u8, 112u8, 101u8, 39u8, 58u8]
}

pub open spec fn nd_shape_dq() -> Seq<u8> {
    seq![34u8, 115u8, 104u8, 97u8, 112u8, 101u8, 34u8, 58u8]
}

/// The dtype key, `'descr':`.
pub open spec fn nd_descr() -> Seq<u8> {
    seq![39u8, 100u8, 101u8, 115u8, 99u8, 114u8, 39u8, 58u8]
}

/// The header text names a float32 dtype.
pub open spec fn dtype_f32_in(h: Seq<u8>) -> bool {
    bytes_contain(h, nd_f4_sq()) || bytes_contain(h, nd_f4_dq()) || bytes_contain(h, nd_f4_be())
        || bytes_contain(h, nd_float32())
}

/// The header text marks Fortran (column-major) order.
pub open spec fn fortran_in(h: Seq<u8>) -> bool {
    bytes_contain(h, nd_fortran_sq()) || bytes_contain(h, nd_fortran_dq())
}

/// The header text holds a shape key.
pub open spec fn shape_found(h: Seq<u8>) -> bool {
    bytes_contain(h, nd_shape_sq()) || bytes_contain(h, nd_shape_dq())
}

/// Where the shape key starts: the single-quoted form is looked for first.
pub open spec fn shape_pos(h: Seq<u8>) -> int {
    if bytes_contain(h, nd_shape_sq()) {
        first_match(h, nd_shape_sq())
    } else {
        first_match(h, nd_shape_dq())
    }
}

/// The header text from the shape key on.
pub open spec fn shape_after(h: Seq<u8>) -> Seq<u8> {
    h.skip(shape_pos(h))
}

/// The header text between the parentheses of the shape: from the first `(`
/// after the shape key to the first `)` after that.
pub open spec fn shape_inner(h: Seq<u8>) -> Seq<u8> {
    let after = shape_after(h);
    let rest = after.skip(first_match(after, seq![40u8]) + 1);
    rest.take(first_match(rest, seq![41u8]))
}

/// The dimension numbers the header declares.
pub open spec fn npy_dims(h: Seq<u8>) -> Seq<usize> {
    dims_of(shape_inner(h))
}

/// The buffer starts with the `.npy` magic bytes.
pub open spec fn magic6(d: Seq<u8>) -> bool {
    d.len() >= 6 && d.subrange(0, 6) == npy_magic()
}

/// Where the header text starts: byte 10 in version one, byte 12 above it.
pub open spec fn hdr_start(d: Seq<u8>) -> int {
    if d[6] == 1 {
        10int
    } else {
        12int
    }
}

/// The declared header length, little-endian: two bytes in version one, four
/// above it.
pub open spec fn hdr_len(d: Seq<u8>) -> int {
    if d[6] == 1 {
        d[8] + 256 * d[9]
    } else {
        d[8] + 256 * d[9] + 65536 * d[10] + 16777216 * d[11]
    }
}

/// The buffer is long enough for its magic, version and declared header.
pub open spec fn hdr_ok(d: Seq<u8>) -> bool {
    magic6(d) && d.len() >= 8 && d[6] <= 2 && d.len() >= hdr_start(d) && d.len() - hdr_start(d)
        >= hdr_len(d)
}

/// The header text bytes.
pub open spec fn hdr_bytes(d: Seq<u8>) -> Seq<u8> {
    d.subrange(hdr_start(d), hdr_start(d) + hdr_len(d))
}

/// Build an executable copy of a spec-level needle.
fn magic_vec() -> (r: Vec<u8>)
    ensures
        r@ == npy_magic(),
{
    let mut v: Vec<u8> = Vec::new();
    v.push(0x93);
    v.push(0x4E);
    v.push(0x55);
    v.push(0x4D);
    v.push(0x50);
    v.push(0x59);
    proof {
        assert(v@ =~= npy_magic());
    }
    v
}

fn needle_5(a: u8, b: u8, c: u8, d: u8, e: u8) -> (r: Vec<u8>)
    ensures
        r@ == seq![a, b, c, d, e],
{
    let mut v: Vec<u8> = Vec::new();
    v.push(a);
    v.push(b);
    v.push(c);
    v.push(d);
    v.push(e);
    proof {
        assert(v@ =~= seq![a, b, c, d, e]);
    }
    v
}

fn float32_vec() -> (r: Vec<u8>)
    ensures
        r@ == nd_float32(),
{
    let mut v: Vec<u8> = Vec::new();
    v.push(102);
    v.push(108);
    v.push(111);
    v.push(97);
    v.push(116);
    v.push(51);
    v.push(50);
    proof {
        assert(v@ =~= nd_float32());
    }
    v
}

fn fortran_vec(q: u8) -> (r: Vec<u8>)
    ensures
        r@ == seq![
            q, 102u8, 111u8, 114u8, 116u8, 114u8, 97u8, 110u8, 95u8, 111u8, 114u8, 100u8, 101u8,
            114u8, q, 58u8, 32u8, 84u8, 114u8, 117u8, 101u8,
        ],
{
    let mut v: Vec<u8> = Vec::new();
    v.push(q);
    v.push(102);
    v.push(111);
    v.push(114);
    v.push(116);
    v.push(114);
    v.push(97);
    v.push(110);
    v.push(95);
    v.push(111);
    v.push(114);
    v.push(100);
    v.push(101);
    v.push(114);
    v.push(q);
    v.push(58);
    v.push(32);
    v.push(84);
    v.push(114);
    v.push(117);
    v.push(101);
    proof {
        assert(v@ =~= seq![
            q, 102u8, 111u8, 114u8, 116u8, 114u8, 97u8, 110u8, 95u8, 111u8, 114u8, 100u8, 101u8,
            114u8, q, 58u8, 32u8, 84u8, 114u8, 117u8, 101u8,
        ]);
    }
    v
}

fn key_8(q: u8, a: u8, b: u8, c: u8, d: u8, e: u8) -> (r: Vec<u8>)
    ensures
        r@ == seq![q, a, b, c, d, e, q, 58u8],
{
    let mut v: Vec<u8> = Vec::new();
    v.push(q);
    v.push(a);
    v.push(b);
    v.push(c);
    v.push(d);
    v.push(e);
    v.push(q);
    v.push(58);
    proof {
        assert(v@ =~= seq![q, a, b, c, d, e, q, 58u8]);
    }
    v
}

/// A short printable extract of the declared dtype, for the error message:
/// up to eight ASCII bytes after the dtype key, leading spaces and quotes
/// skipped; `unknown` when the header has no dtype key.
fn dtype_snip(hb: &Vec<u8>) -> (r: String)
    ensures
        r@.len() <= 8 || r@ == "unknown"@,
{
    let descr = key_8(39, 100, 101, 115, 99, 114);
    let p = match find_bytes(hb.as_slice(), descr.as_slice()) {
        Some(p) => p,
        None => {
            return "unknown".to_owned();
        },
    };
    let hl = hb.len();
    proof {
        assert(p + nd_descr().len() <= hb@.len());
        assert(hb@.len() == hl);
    }
    let mut i: usize = p + 8;
    while i < hb.len() && (hb[i] == 32 || hb[i] == 39 || hb[i] == 34)
        invariant
            i <= hb@.len(),
        decreases hb@.len() - i,
    {
        i = i + 1;
    }
    let mut out: Vec<u8> = Vec::new();
    while i < hb.len() && out.len() < 8 && hb[i] < 0x80
        invariant
            i <= hb@.len(),
            out@.len() <= 8,
            forall|k: int| 0 <= k < out@.len() ==> out@[k] < 0x80,
        decreases hb@.len() - i,
    {
        out.push(hb[i]);
        i = i + 1;
    }
    let s = ascii_to_string(&out);
    s
}

/// Parse a minimal `.npy` version 1.0 / 2.0 header from the start of a raw
/// buffer: on success the parsed shape and flags, and the offset at which
/// the data section begins. Only 2-D float32 arrays pass. A buffer too
/// short for what it declares is rejected with a parse error, never read
/// past its end.
pub fn parse_npy_header(data: &[u8]) -> (r: Result<(NpyHeader, usize), NpyError>)
    ensures
        !magic6(data@) ==> (r matches Err(e) && e matches NpyError::BadMagic),
        magic6(data@) && data@.len() < 8 ==> (r matches Err(e) && e matches NpyError::ParseError(s)
            && s@ == "file too short for header"@),
        magic6(data@) && data@.len() >= 8 && data@[6] > 2 ==> (r matches Err(e) && e matches
            NpyError::UnsupportedVersion(maj, min) && maj == data@[6] && min == data@[7]),
        magic6(data@) && data@.len() >= 8 && data@[6] <= 2 && data@.len() < hdr_start(data@) ==> (
        r matches Err(e) && e matches NpyError::ParseError(s) && s@
            == "file too short for header"@),
        magic6(data@) && data@.len() >= 8 && data@[6] <= 2 && data@.len() >= hdr_start(data@)
            && data@.len() - hdr_start(data@) < hdr_len(data@) ==> (r matches Err(e) && e matches
            NpyError::ParseError(s) && s@ == "file too short for declared header"@),
        hdr_ok(data@) && !vstd::utf8::valid_utf8(hdr_bytes(data@)) ==> (r matches Err(e)
            && e matches NpyError::ParseError(s) && s@ == "header is not valid UTF-8"@),
        hdr_ok(data@) && vstd::utf8::valid_utf8(hdr_bytes(data@)) && !dtype_f32_in(
            hdr_bytes(data@),
        ) ==> (r matches Err(e) && e matches NpyError::UnsupportedDtype(_)),
        hdr_ok(data@) && vstd::utf8::valid_utf8(hdr_bytes(data@)) && dtype_f32_in(
            hdr_bytes(data@),
        ) && !shape_found(hdr_bytes(data@)) ==> (r matches Err(e) && e matches
            NpyError::ParseError(s) && s@ == "no 'shape' key"@),
        hdr_ok(data@) && vstd::utf8::valid_utf8(hdr_bytes(data@)) && dtype_f32_in(
            hdr_bytes(data@),
        ) && shape_found(hdr_bytes(data@)) ==> {
            let hb = hdr_bytes(data@);
            let after = shape_after(hb);
            &&& (!bytes_contain(after, seq![40u8]) ==> (r matches Err(e) && e matches
                NpyError::ParseError(s) && s@ == "no '(' after shape"@))
            &&& (bytes_contain(after, seq![40u8]) && !bytes_contain(
                after.skip(first_match(after, seq![40u8]) + 1),
                seq![41u8],
            ) ==> (r matches Err(e) && e matches NpyError::ParseError(s) && s@
                == "no ')' after shape"@))
            &&& (bytes_contain(after, seq![40u8]) && bytes_contain(
                after.skip(first_match(after, seq![40u8]) + 1),
                seq![41u8],
            ) ==> {
                &&& (npy_dims(hb).len() != 2 ==> (r matches Err(e) && e matches
                    NpyError::WrongShape))
                &&& (npy_dims(hb).len() == 2 ==> (r matches Ok(p) && p.0.rows == npy_dims(hb)[0]
                    && p.0.cols == npy_dims(hb)[1] && p.0.is_fortran_order == fortran_in(hb)
                    && p.0.dtype_is_float32 && p.1 == hdr_start(data@) + hdr_len(data@)))
            })
        },
{
    let magic = magic_vec();
    if data.len() < 6 {
        return Err(NpyError::BadMagic);
    }
    let mut k: usize = 0;
    let mut pref: bool = true;
    while k < 6
        invariant
            k <= 6,
            data@.len() >= 6,
            magic@ == npy_magic(),
            pref ==> forall|t: int| 0 <= t < k ==> data@[t] == npy_magic()[t],
            !pref ==> data@.subrange(0, 6) != npy_magic(),
        decreases 6 - k,
    {
        if data[k] != magic[k] {
            proof {
                if data@.subrange(0, 6) == npy_magic() {
                    assert(data@.subrange(0, 6)[k as int] == npy_magic()[k as int]);
                }
            }
            pref = false;
        }
        k = k + 1;
    }
    if !pref {
        return Err(NpyError::BadMagic);
    }
    proof {
        assert(data@.subrange(0, 6) =~= npy_magic());
    }
    if data.len() < 8 {
        return Err(NpyError::ParseError("file too short for header".to_owned()));
    }
    let major = data[6];
    let minor = data[7];
    if major > 2 {
        return Err(NpyError::UnsupportedVersion(major, minor));
    }
    let header_start: usize = if major == 1 {
        10
    } else {
        12
    };
    if data.len() < header_start {
        return Err(NpyError::ParseError("file too short for header".to_owned()));
    }
    let header_len: usize = if major == 1 {
        (data[8] as usize) + 256 * (data[9] as usize)
    } else {
        (data[8] as usize) + 256 * (data[9] as usize) + 65536 * (data[10] as usize) + 16777216 * (
        data[11] as usize)
    };
    if data.len() - header_start < header_len {
        return Err(NpyError::ParseError("file too short for declared header".to_owned()));
    }
    let hb = copy_range(data, header_start, header_start + header_len);
    proof {
        assert(hb@ == hdr_bytes(data@));
    }
    if !utf8_ok(hb.as_slice()) {
        return Err(NpyError::ParseError("header is not valid UTF-8".to_owned()));
    }

    // dtype: one of the accepted float32 spellings must occur
    let f4a = needle_5(39, 60, 102, 52, 39);
    let f4b = needle_5(34, 60, 102, 52, 34);
    let f4c = needle_5(39, 62, 102, 52, 39);
    let f4d = float32_vec();
    let dtype_ok = find_bytes(hb.as_slice(), f4a.as_slice()).is_some() || find_bytes(
        hb.as_slice(),
        f4b.as_slice(),
    ).is_some() || find_bytes(hb.as_slice(), f4c.as_slice()).is_some() || find_bytes(
        hb.as_slice(),
        f4d.as_slice(),
    ).is_some();
    if !dtype_ok {
        let snip = dtype_snip(&hb);
        return Err(NpyError::UnsupportedDtype(snip));
    }

    // fortran order flag
    let fsq = fortran_vec(39);
    let fdq = fortran_vec(34);
    let is_fortran = find_bytes(hb.as_slice(), fsq.as_slice()).is_some() || find_bytes(
        hb.as_slice(),
        fdq.as_slice(),
    ).is_some();

    // shape: the single-quoted key first, then the double-quoted one
    let ssq = key_8(39, 115, 104, 97, 112, 101);
    let sdq = key_8(34, 115, 104, 97, 112, 101);
    let sp: usize = match find_bytes(hb.as_slice(), ssq.as_slice()) {
        Some(p) => {
            proof {
                lemma_first_match_is(hb@, nd_shape_sq(), p as int);
            }
            p
        },
        None => {
            match find_bytes(hb.as_slice(), sdq.as_slice()) {
                Some(p) => {
                    proof {
                        lemma_first_match_is(hb@, nd_shape_dq(), p as int);
                    }
                    p
                },
                None => {
                    return Err(NpyError::ParseError("no 'shape' key".to_owned()));
                },
            }
        },
    };
    let after = copy_range(hb.as_slice(), sp, hb.len());
    proof {
        assert(after@ =~= shape_after(hb@));
    }
    let mut paren = Vec::new();
    paren.push(40u8);
    proof {
        assert(paren@ =~= seq![40u8]);
    }
    let op: usize = match find_bytes(after.as_slice(), paren.as_slice()) {
        Some(p) => {
            proof {
                lemma_first_match_is(after@, seq![40u8], p as int);
            }
            p
        },
        None => {
            return Err(NpyError::ParseError("no '(' after shape".to_owned()));
        },
    };
    let rest = copy_range(after.as_slice(), op + 1, after.len());
    proof {
        assert(rest@ =~= shape_after(hb@).skip(first_match(shape_after(hb@), seq![40u8]) + 1));
    }
    let mut closer = Vec::new();
    closer.push(41u8);
    proof {
        assert(closer@ =~= seq![41u8]);
    }
    let cl: usize = match find_bytes(rest.as_slice(), closer.as_slice()) {
        Some(p) => {
            proof {
                lemma_first_match_is(rest@, seq![41u8], p as int);
            }
            p
        },
        None => {
            return Err(NpyError::ParseError("no ')' after shape".to_owned()));
        },
    };
    let inner = copy_range(rest.as_slice(), 0, cl);
    proof {
        assert(inner@ =~= shape_inner(hb@));
    }
    let dims = parse_dims(&inner);
    if dims.len() != 2 {
        return Err(NpyError::WrongShape);
    }
    Ok(
        (
            NpyHeader {
                rows: dims[0],
                cols: dims[1],
                is_fortran_order: is_fortran,
                dtype_is_float32: true,
            },
            header_start + header_len,
        ),
    )
}


/// The little-endian 32-bit value at this byte offset.
pub open spec fn le32_at(b: Seq<u8>, at: int) -> u32 {
    (b[at] + 256 * b[at + 1] + 65536 * b[at + 2] + 16777216 * b[at + 3]) as u32
}

/// The bit patterns of one row of `cols` little-endian 32-bit values.
pub open spec fn row_bits(b: Seq<u8>, row: int, cols: int) -> Seq<u32> {
    Seq::new(cols as nat, |j: int| le32_at(b, (row * cols + j) * 4))
}

/// Every component of the row is finite (no NaN, no infinity).
pub open spec fn finite_row(v: Seq<u32>) -> bool {
    forall|j: int| 0 <= j < v.len() ==> is_finite_bits(#[trigger] v[j])
}

/// The finite rows of a float32 data section, each with its row number:
/// rows holding a NaN or an infinity are dropped, the rest keep their order.
pub open spec fn finite_rows(b: Seq<u8>, rows: int, cols: int) -> Seq<(usize, Seq<u32>)>
    decreases rows,
{
    if rows <= 0 {
        Seq::empty()
    } else {
        let rest = finite_rows(b, rows - 1, cols);
        let v = row_bits(b, rows - 1, cols);
        if finite_row(v) {
            rest.push((((rows - 1) as usize), v))
        } else {
            rest
        }
    }
}

/// Decode the data section of a float32 `.npy` buffer: `rows` rows of
/// `cols` little-endian 4-byte values each become vectors of bit patterns,
/// keyed by their row number; a row holding a NaN or an infinity is
/// dropped, never an error.
pub fn decode_rows(data: &[u8], rows: usize, cols: usize) -> (r: Vec<(usize, Vec<u32>)>)
    requires
        rows * cols * 4 <= data@.len(),
    ensures
        r@.len() == finite_rows(data@, rows as int, cols as int).len(),
        forall|t: int|
            0 <= t < r@.len() ==> (#[trigger] r@[t]).0 == finite_rows(
                data@,
                rows as int,
                cols as int,
            )[t].0 && r@[t].1@ == finite_rows(data@, rows as int, cols as int)[t].1,
{
    let n = data.len();
    let mut out: Vec<(usize, Vec<u32>)> = Vec::new();
    let mut row: usize = 0;
    while row < rows
        invariant
            row <= rows,
            rows * cols * 4 <= data@.len(),
            n == data@.len(),
            out@.len() == finite_rows(data@, row as int, cols as int).len(),
            forall|t: int|
                0 <= t < out@.len() ==> (#[trigger] out@[t]).0 == finite_rows(
                    data@,
                    row as int,
                    cols as int,
                )[t].0 && out@[t].1@ == finite_rows(data@, row as int, cols as int)[t].1,
        decreases rows - row,
    {
        proof {
            assert((row + 1) * cols * 4 <= rows * cols * 4) by (nonlinear_arith)
                requires
                    row + 1 <= rows,
                    cols >= 0,
            ;
        }
        let mut cur: Vec<u32> = Vec::new();
        let mut ok: bool = true;
        let mut j: usize = 0;
        while j < cols
            invariant
                j <= cols,
                row < rows,
                n == data@.len(),
                (row + 1) * cols * 4 <= data@.len(),
                cur@.len() == j,
                forall|jj: int|
                    0 <= jj < j ==> #[trigger] cur@[jj] == le32_at(
                        data@,
                        (row * cols + jj) * 4,
                    ),
                ok == (forall|jj: int| 0 <= jj < j ==> is_finite_bits(#[trigger] cur@[jj])),
            decreases cols - j,
        {
            proof {
                assert((row * cols + j) * 4 + 4 <= (row + 1) * cols * 4) by (nonlinear_arith)
                    requires
                        0 <= j < cols,
                        0 <= row,
                ;
            }
            let at = (row * cols + j) * 4;
            let v: u32 = (data[at] as u32) + 256 * (data[at + 1] as u32) + 65536 * (data[at
                + 2] as u32) + 16777216 * (data[at + 3] as u32);
            let fin = is_finite(v);
            let ghost ok0 = ok;
            let ghost cur0 = cur@;
            cur.push(v);
            if !fin {
                ok = false;
            }
            proof {
                assert forall|jj: int| 0 <= jj < j + 1 && ok implies is_finite_bits(
                    #[trigger] cur@[jj],
                ) by {
                    if jj < j {
                        assert(cur@[jj] == cur0[jj]);
                    }
                }
                if !ok {
                    assert(!(forall|jj: int|
                        0 <= jj < j + 1 ==> is_finite_bits(#[trigger] cur@[jj]))) by {
                        if ok0 {
                            assert(!is_finite_bits(cur@[j as int]));
                        } else {
                            let w = choose|w: int| 0 <= w < j && !is_finite_bits(cur0[w]);
                            assert(cur@[w] == cur0[w]);
                        }
                    }
                }
            }
            j = j + 1;
        }
        proof {
            assert(cur@ =~= row_bits(data@, row as int, cols as int));
        }
        if ok {
            out.push((row, cur));
        }
        proof {
            assert(out@.len() == finite_rows(data@, row + 1, cols as int).len());
        }
        row = row + 1;
    }
    out
}

} // verus!
