//! Vector normalization and similarity metrics over IEEE-754 single-precision
//! bit patterns.
//!
//! Every specification below folds the scalar operation names of `fp` from
//! left to right, in the same order the executable loops apply them, so a
//! contract pins the exact sequence of roundings.

use vstd::prelude::*;

use crate::fp::{
    add_bits, add_of, clamp_unit, clamp_unit_spec, div_bits, div_of, flip_sign, lt_bits,
    lt_total, mul_bits, mul_of, neg_bits, sqrt_bits, sqrt_of, sub_bits, sub_of, EPS_BITS,
};

verus! {

/// Supported similarity metrics.
#[derive(Debug, Clone, PartialEq, Eq, Structural)]
pub enum Metric {
    /// Cosine similarity (assumes pre-normalized vectors, then a dot product).
    Cosine,
    /// Euclidean (L2) distance; lower means closer.
    Euclidean,
    /// Raw dot product; higher means closer.
    DotProduct,
}

/// Every component is the bit pattern of positive zero.
pub open spec fn all_zero(v: Seq<u32>) -> bool {
    forall|i: int| 0 <= i < v.len() ==> v[i] == 0u32
}

/// Sum of squares of the first `n` components, folded left to right.
pub open spec fn sum_squares_prefix(v: Seq<u32>, n: int) -> u32
    decreases n,
{
    if n <= 0 {
        0u32
    } else {
        add_of(sum_squares_prefix(v, n - 1), mul_of(v[n - 1], v[n - 1]))
    }
}

/// The L2 magnitude of a vector: square root of the left-to-right sum of the
/// squared components.
pub open spec fn magnitude_spec(v: Seq<u32>) -> u32 {
    sqrt_of(sum_squares_prefix(v, v.len() as int))
}

/// Compute the L2 (Euclidean) magnitude (norm) of a vector.
pub fn magnitude(v: &Vec<u32>) -> (r: u32)
    ensures
        r == magnitude_spec(v@),
        all_zero(v@) ==> r == 0u32,
{
    let mut acc: u32 = 0;
    let mut i: usize = 0;
    while i < v.len()
        invariant
            i <= v.len(),
            acc == sum_squares_prefix(v@, i as int),
            (forall|j: int| 0 <= j < i ==> v@[j] == 0u32) ==> acc == 0u32,
        decreases v.len() - i,
    {
        let sq = mul_bits(v[i], v[i]);
        acc = add_bits(acc, sq);
        i = i + 1;
    }
    sqrt_bits(acc)
}

/// The normalized vector: unchanged when the magnitude lies below the
/// `1e-10` threshold in the IEEE-754 total order, otherwise every component
/// divided by the magnitude.
pub open spec fn normalize_spec(v: Seq<u32>) -> Seq<u32> {
    let m = magnitude_spec(v);
    if lt_bits(m, EPS_BITS) {
        v
    } else {
        Seq::new(v.len(), |i: int| div_of(v[i], m))
    }
}

/// L2-normalize a vector into a fresh copy. A vector whose magnitude falls
/// below the zero threshold — in particular the all-zero vector — is
/// returned unchanged.
pub fn normalize(v: &Vec<u32>) -> (r: Vec<u32>)
    ensures
        r@ == normalize_spec(v@),
        r@.len() == v@.len(),
        all_zero(v@) ==> r@ == v@,
{
    let mag = magnitude(v);
    if lt_total(mag, EPS_BITS) {
        let mut out: Vec<u32> = Vec::new();
        let mut i: usize = 0;
        while i < v.len()
            invariant
                i <= v.len(),
                out@ == v@.take(i as int),
            decreases v.len() - i,
        {
            out.push(v[i]);
            i = i + 1;
        }
        proof {
            assert(out@ == v@);
        }
        out
    } else {
        let mut out: Vec<u32> = Vec::new();
        let mut i: usize = 0;
        while i < v.len()
            invariant
                i <= v.len(),
                mag == magnitude_spec(v@),
                !lt_bits(mag, EPS_BITS),
                out@.len() == i,
                forall|j: int| 0 <= j < i ==> out@[j] == div_of(v@[j], mag),
        decreases v.len() - i,
        {
            out.push(div_bits(v[i], mag));
            i = i + 1;
        }
        proof {
            assert(out@ =~= normalize_spec(v@));
        }
        out
    }
}

/// Dot product of the first `n` components of each vector, folded left to
/// right.
pub open spec fn dot_prefix(a: Seq<u32>, b: Seq<u32>, n: int) -> u32
    decreases n,
{
    if n <= 0 {
        0u32
    } else {
        add_of(dot_prefix(a, b, n - 1), mul_of(a[n - 1], b[n - 1]))
    }
}

/// Dot product over the common prefix: mismatched lengths are handled by
/// truncation to the shorter vector, not rejected.
pub open spec fn dot_spec(a: Seq<u32>, b: Seq<u32>) -> u32 {
    let n = if a.len() <= b.len() {
        a.len() as int
    } else {
        b.len() as int
    };
    dot_prefix(a, b, n)
}

/// Dot product of two vectors. If the lengths differ the shorter one is the
/// limit; the caller is not warned.
pub fn dot(a: &Vec<u32>, b: &Vec<u32>) -> (r: u32)
    ensures
        r == dot_spec(a@, b@),
{
    let n = if a.len() <= b.len() {
        a.len()
    } else {
        b.len()
    };
    let mut acc: u32 = 0;
    let mut i: usize = 0;
    while i < n
        invariant
            i <= n,
            n <= a.len() && n <= b.len(),
            n == if a@.len() <= b@.len() { a@.len() as int } else { b@.len() as int },
            acc == dot_prefix(a@, b@, i as int),
        decreases n - i,
    {
        let p = mul_bits(a[i], b[i]);
        acc = add_bits(acc, p);
        i = i + 1;
    }
    acc
}

/// Cosine similarity: the dot product of the two normalized vectors, clamped
/// to `[-1.0, 1.0]` against rounding past the unit bounds.
pub open spec fn cosine_similarity_spec(a: Seq<u32>, b: Seq<u32>) -> u32 {
    clamp_unit_spec(dot_spec(normalize_spec(a), normalize_spec(b)))
}

/// Cosine similarity between two vectors. Pre-normalize both for speed if
/// calling many times.
pub fn cosine_similarity(a: &Vec<u32>, b: &Vec<u32>) -> (r: u32)
    ensures
        r == cosine_similarity_spec(a@, b@),
{
    let na = normalize(a);
    let nb = normalize(b);
    let d = dot(&na, &nb);
    clamp_unit(d)
}

/// Sum over the first `n` components of the squared componentwise
/// differences, folded left to right.
pub open spec fn dist_sq_prefix(a: Seq<u32>, b: Seq<u32>, n: int) -> u32
    decreases n,
{
    if n <= 0 {
        0u32
    } else {
        let d = sub_of(a[n - 1], b[n - 1]);
        add_of(dist_sq_prefix(a, b, n - 1), mul_of(d, d))
    }
}

/// Squared Euclidean distance over the common prefix of the two vectors.
pub open spec fn euclidean_distance_sq_spec(a: Seq<u32>, b: Seq<u32>) -> u32 {
    let n = if a.len() <= b.len() {
        a.len() as int
    } else {
        b.len() as int
    };
    dist_sq_prefix(a, b, n)
}

/// Squared Euclidean distance (cheaper: avoids the square root when only
/// ranking).
pub fn euclidean_distance_sq(a: &Vec<u32>, b: &Vec<u32>) -> (r: u32)
    ensures
        r == euclidean_distance_sq_spec(a@, b@),
{
    let n = if a.len() <= b.len() {
        a.len()
    } else {
        b.len()
    };
    let mut acc: u32 = 0;
    let mut i: usize = 0;
    while i < n
        invariant
            i <= n,
            n <= a.len() && n <= b.len(),
            n == if a@.len() <= b@.len() { a@.len() as int } else { b@.len() as int },
            acc == dist_sq_prefix(a@, b@, i as int),
        decreases n - i,
    {
        let d = sub_bits(a[i], b[i]);
        let sq = mul_bits(d, d);
        acc = add_bits(acc, sq);
        i = i + 1;
    }
    acc
}

/// Euclidean distance: square root of the squared distance.
pub open spec fn euclidean_distance_spec(a: Seq<u32>, b: Seq<u32>) -> u32 {
    sqrt_of(euclidean_distance_sq_spec(a, b))
}

/// Euclidean distance.
pub fn euclidean_distance(a: &Vec<u32>, b: &Vec<u32>) -> (r: u32)
    ensures
        r == euclidean_distance_spec(a@, b@),
{
    let sq = euclidean_distance_sq(a, b);
    sqrt_bits(sq)
}

/// The unified "higher is better" score. Cosine and DotProduct both return
/// the raw dot product (the caller must pre-normalize for Cosine); Euclidean
/// returns the distance with its sign flipped, so that a lower distance is a
/// higher score.
pub open spec fn score_spec(metric: Metric, query: Seq<u32>, candidate: Seq<u32>) -> u32 {
    match metric {
        Metric::Cosine => dot_spec(query, candidate),
        Metric::DotProduct => dot_spec(query, candidate),
        Metric::Euclidean => flip_sign(euclidean_distance_spec(query, candidate)),
    }
}

/// Generic score function: higher score = better match, whatever the metric.
pub fn score(metric: &Metric, query: &Vec<u32>, candidate: &Vec<u32>) -> (r: u32)
    ensures
        r == score_spec(*metric, query@, candidate@),
{
    match metric {
        Metric::Cosine => dot(query, candidate),
        Metric::DotProduct => dot(query, candidate),
        Metric::Euclidean => {
            let d = euclidean_distance(query, candidate);
            neg_bits(d)
        },
    }
}

/// An ASCII whitespace character, as the text parsers trim it.
pub open spec fn ws_char(c: char) -> bool {
    c == ' ' || c == '\t' || c == '\n' || c == '\r' || c == '\u{b}' || c == '\u{c}'
}

/// The text with leading whitespace removed.
pub open spec fn trim_front_chars(s: Seq<char>) -> Seq<char>
    decreases s.len(),
{
    if s.len() > 0 && ws_char(s[0]) {
        trim_front_chars(s.drop_first())
    } else {
        s
    }
}

/// The text with trailing whitespace removed.
pub open spec fn trim_back_chars(s: Seq<char>) -> Seq<char>
    decreases s.len(),
{
    if s.len() > 0 && ws_char(s[s.len() - 1]) {
        trim_back_chars(s.drop_last())
    } else {
        s
    }
}

/// The text with whitespace removed at both ends.
pub open spec fn trim_chars(s: Seq<char>) -> Seq<char> {
    trim_back_chars(trim_front_chars(s))
}

proof fn lemma_trim_front_chars_skip(s: Seq<char>, a: int)
    requires
        0 <= a <= s.len(),
        forall|j: int| 0 <= j < a ==> ws_char(s[j]),
        a == s.len() || !ws_char(s[a]),
    ensures
        trim_front_chars(s) == s.skip(a),
    decreases a,
{
    if a == 0 {
        assert(s.skip(0) =~= s);
    } else {
        lemma_trim_front_chars_skip(s.drop_first(), a - 1);
        assert(s.drop_first().skip(a - 1) =~= s.skip(a));
    }
}

proof fn lemma_trim_back_chars_take(s: Seq<char>, b: int)
    requires
        0 <= b <= s.len(),
        forall|j: int| b <= j < s.len() ==> ws_char(s[j]),
        b == 0 || !ws_char(s[b - 1]),
    ensures
        trim_back_chars(s) == s.take(b),
    decreases s.len() - b,
{
    if b == s.len() {
        assert(s.take(b) =~= s);
    } else {
        lemma_trim_back_chars_take(s.drop_last(), b);
        assert(s.drop_last().take(b) =~= s.take(b));
    }
}

/// Whether a character counts as trimmable whitespace.
fn is_ws_char(c: char) -> (r: bool)
    ensures
        r == ws_char(c),
{
    c == ' ' || c == '\t' || c == '\n' || c == '\r' || c == '\u{b}' || c == '\u{c}'
}

/// The whitespace-trimmed sub-range of `s@[from..to]`: start and end
/// positions such that the range between them is the trimmed text.
pub fn trim_positions(s: &str, from: usize, to: usize) -> (r: (usize, usize))
    requires
        from <= to <= s@.len(),
    ensures
        from <= r.0 <= r.1 <= to,
        s@.subrange(r.0 as int, r.1 as int) == trim_chars(
            s@.subrange(from as int, to as int),
        ),
{
    let ghost seg = s@.subrange(from as int, to as int);
    let mut a: usize = from;
    while a < to && is_ws_char(s.get_char(a))
        invariant
            from <= a <= to <= s@.len(),
            forall|j: int| from <= j < a ==> ws_char(s@[j]),
        decreases to - a,
    {
        a = a + 1;
    }
    proof {
        assert forall|j: int| 0 <= j < a - from implies ws_char(seg[j]) by {
            assert(seg[j] == s@[from + j]);
        }
        if a < to {
            assert(seg[a - from] == s@[a as int]);
        }
        lemma_trim_front_chars_skip(seg, a - from);
    }
    let mut b: usize = to;
    while b > a && is_ws_char(s.get_char(b - 1))
        invariant
            a <= b <= to,
            to <= s@.len(),
            forall|j: int| b <= j < to ==> ws_char(s@[j]),
        decreases b,
    {
        b = b - 1;
    }
    proof {
        let fr = seg.skip(a - from);
        assert forall|j: int| b - a <= j < fr.len() implies ws_char(fr[j]) by {
            assert(fr[j] == s@[a + j]);
        }
        if b > a {
            assert(fr[b - a - 1] == s@[b - 1]);
        }
        lemma_trim_back_chars_take(fr, b - a);
        assert(fr.take(b - a) =~= s@.subrange(a as int, b as int));
    }
    (a, b)
}

/// Closing a segment of a comma-separated list: the accumulated values plus
/// the segment's parsed value, or `None` once anything failed to parse. A
/// segment too long for the number parser counts as unparseable.
pub open spec fn val_step(acc: Option<Seq<u32>>, seg: Seq<char>) -> Option<Seq<u32>> {
    match acc {
        None => None,
        Some(a) => {
            if trim_chars(seg).len() >= 0x8000_0000 {
                None
            } else {
                match crate::fp::parse_f32_of(trim_chars(seg)) {
                    Some(v) => Some(a.push(v)),
                    None => None,
                }
            }
        },
    }
}

/// One left-to-right pass over a comma-separated list of numbers.
pub open spec fn vals_scan(s: Seq<char>, i: int, cur: Seq<char>, acc: Option<Seq<u32>>) -> Option<
    Seq<u32>,
>
    decreases s.len() - i,
{
    if i < 0 || i >= s.len() {
        val_step(acc, cur)
    } else if s[i] == ',' {
        vals_scan(s, i + 1, Seq::empty(), val_step(acc, cur))
    } else {
        vals_scan(s, i + 1, cur.push(s[i]), acc)
    }
}

/// The values of a comma-separated list: every segment, trimmed, must parse
/// as a number, else the whole list is rejected.
pub open spec fn comma_values_of(s: Seq<char>) -> Option<Seq<u32>> {
    vals_scan(s, 0, Seq::empty(), Some(Seq::empty()))
}

proof fn lemma_vals_scan_none(s: Seq<char>, i: int, cur: Seq<char>)
    ensures
        vals_scan(s, i, cur, None::<Seq<u32>>) is None,
    decreases s.len() - i,
{
    if 0 <= i < s.len() {
        if s[i] == ',' {
            lemma_vals_scan_none(s, i + 1, Seq::empty());
        } else {
            lemma_vals_scan_none(s, i + 1, cur.push(s[i]));
        }
    }
}

proof fn lemma_toks_scan_none(s: Seq<char>, i: int, cur: Seq<char>)
    ensures
        toks_scan(s, i, cur, None::<Seq<u32>>) is None,
    decreases s.len() - i,
{
    if 0 <= i < s.len() {
        if ws_char(s[i]) {
            if cur.len() == 0 {
                lemma_toks_scan_none(s, i + 1, cur);
            } else {
                lemma_toks_scan_none(s, i + 1, Seq::empty());
            }
        } else {
            lemma_toks_scan_none(s, i + 1, cur.push(s[i]));
        }
    }
}

/// Parse the comma-separated numbers in `s@[from..to]`.
pub fn parse_comma_values(s: &str, from: usize, to: usize) -> (r: Option<Vec<u32>>)
    requires
        from <= to <= s@.len(),
    ensures
        match r {
            Some(v) => comma_values_of(s@.subrange(from as int, to as int)) == Some(v@),
            None => comma_values_of(s@.subrange(from as int, to as int)) is None,
        },
{
    let ghost seg = s@.subrange(from as int, to as int);
    proof {
        assert(s@.subrange(from as int, from as int) =~= Seq::<char>::empty());
    }
    let mut vals: Vec<u32> = Vec::new();
    let mut start: usize = from;
    let mut i: usize = from;
    while i < to
        invariant
            from <= start <= i <= to <= s@.len(),
            seg == s@.subrange(from as int, to as int),
            comma_values_of(seg) == vals_scan(
                seg,
                i - from,
                s@.subrange(start as int, i as int),
                Some(vals@),
            ),
        decreases to - i,
    {
        proof {
            assert(s@.subrange(from as int, to as int)[i - from] == s@[i as int]);
            assert(seg[i - from] == s@[i as int]);
        }
        if s.get_char(i) == ',' {
            let (a, b) = trim_positions(s, start, i);
            if b - a >= 0x8000_0000 {
                proof {
                    lemma_vals_scan_none(seg, i - from + 1, Seq::empty());
                }
                return None;
            }
            let piece = s.substring_char(a, b);
            proof {
                assert(piece@ == trim_chars(s@.subrange(start as int, i as int)));
            }
            match crate::fp::parse_f32_bits(piece) {
                Some(v) => {
                    vals.push(v);
                },
                None => {
                    proof {
                        lemma_vals_scan_none(seg, i - from + 1, Seq::empty());
                    }
                    return None;
                },
            }
            start = i + 1;
            proof {
                assert(s@.subrange(start as int, i + 1) =~= Seq::<char>::empty());
            }
        } else {
            proof {
                assert(s@.subrange(start as int, i + 1) =~= s@.subrange(
                    start as int,
                    i as int,
                ).push(s@[i as int]));
            }
        }
        i = i + 1;
    }
    let (a, b) = trim_positions(s, start, to);
    if b - a >= 0x8000_0000 {
        return None;
    }
    let piece = s.substring_char(a, b);
    proof {
        assert(piece@ == trim_chars(s@.subrange(start as int, to as int)));
    }
    match crate::fp::parse_f32_bits(piece) {
        Some(v) => {
            vals.push(v);
            Some(vals)
        },
        None => None,
    }
}

/// The embedding a JSON-style array text denotes: the trimmed text must be
/// bracketed, and every comma-separated entry must parse as a number; an
/// empty array is rejected.
pub open spec fn json_embedding_of(s: Seq<char>) -> Option<Seq<u32>> {
    let t = trim_chars(s);
    if !(t.len() > 0 && t[0] == '[' && t.last() == ']') {
        None
    } else {
        match comma_values_of(t.subrange(1, t.len() - 1)) {
            None => None,
            Some(v) => if v.len() == 0 {
                None
            } else {
                Some(v)
            },
        }
    }
}

/// Parse a JSON array of numbers into a vector of bit patterns. A minimal
/// parser: the text must be a bracketed, comma-separated list.
pub fn parse_json_embedding(json: &str) -> (r: Option<Vec<u32>>)
    ensures
        match r {
            Some(v) => json_embedding_of(json@) == Some(v@),
            None => json_embedding_of(json@) is None,
        },
{
    let n = json.unicode_len();
    let (a, b) = trim_positions(json, 0, n);
    proof {
        assert(json@.subrange(0, n as int) =~= json@);
    }
    if a == b {
        return None;
    }
    if json.get_char(a) != '[' || json.get_char(b - 1) != ']' {
        proof {
            let t = trim_chars(json@);
            assert(t[0] == json@[a as int]);
            assert(t.last() == json@[b - 1]);
        }
        return None;
    }
    proof {
        let t = trim_chars(json@);
        assert(t[0] == json@[a as int] && t.last() == json@[b - 1]);
        assert(t.subrange(1, t.len() - 1) =~= json@.subrange(a + 1, b - 1));
    }
    match parse_comma_values(json, a + 1, b - 1) {
        Some(v) => {
            if v.len() == 0 {
                None
            } else {
                Some(v)
            }
        },
        None => None,
    }
}

/// One left-to-right pass over whitespace-separated tokens: whitespace
/// closes a token, and every non-empty token must parse as a number.
pub open spec fn toks_scan(s: Seq<char>, i: int, cur: Seq<char>, acc: Option<Seq<u32>>) -> Option<
    Seq<u32>,
>
    decreases s.len() - i,
{
    if i < 0 || i >= s.len() {
        if cur.len() == 0 {
            acc
        } else {
            val_step(acc, cur)
        }
    } else if ws_char(s[i]) {
        if cur.len() == 0 {
            toks_scan(s, i + 1, cur, acc)
        } else {
            toks_scan(s, i + 1, Seq::empty(), val_step(acc, cur))
        }
    } else {
        toks_scan(s, i + 1, cur.push(s[i]), acc)
    }
}

/// The embedding a whitespace-separated text denotes: every token must
/// parse as a number, and at least one token must be there.
pub open spec fn text_embedding_of(s: Seq<char>) -> Option<Seq<u32>> {
    match toks_scan(s, 0, Seq::empty(), Some(Seq::empty())) {
        None => None,
        Some(v) => if v.len() == 0 {
            None
        } else {
            Some(v)
        },
    }
}

/// Parse a whitespace-separated string of numbers into a vector of bit
/// patterns.
pub fn parse_text_embedding(text: &str) -> (r: Option<Vec<u32>>)
    ensures
        match r {
            Some(v) => text_embedding_of(text@) == Some(v@),
            None => text_embedding_of(text@) is None,
        },
{
    let n = text.unicode_len();
    proof {
        assert(text@.subrange(0, 0) =~= Seq::<char>::empty());
    }
    let mut vals: Vec<u32> = Vec::new();
    let mut start: usize = 0;
    let mut i: usize = 0;
    while i < n
        invariant
            start <= i <= n,
            n == text@.len(),
            forall|j: int| start <= j < i ==> !ws_char(text@[j]),
            toks_scan(text@, 0, Seq::empty(), Some(Seq::<u32>::empty())) == toks_scan(
                text@,
                i as int,
                text@.subrange(start as int, i as int),
                Some(vals@),
            ),
        decreases n - i,
    {
        proof {
            if i == start {
                assert(text@.subrange(start as int, i as int) =~= Seq::<char>::empty());
            }
        }
        if is_ws_char(text.get_char(i)) {
            if i > start {
                if i - start >= 0x8000_0000 {
                    proof {
                        lemma_toks_scan_none(text@, i + 1, Seq::empty());
                    }
                    return None;
                }
                let piece = text.substring_char(start, i);
                proof {
                    assert(trim_chars(piece@) == piece@) by {
                        lemma_trim_front_chars_skip(piece@, 0);
                        lemma_trim_back_chars_take(piece@, piece@.len() as int);
                        assert(piece@.take(piece@.len() as int) =~= piece@);
                    }
                }
                match crate::fp::parse_f32_bits(piece) {
                    Some(v) => {
                        vals.push(v);
                    },
                    None => {
                        proof {
                            lemma_toks_scan_none(text@, i + 1, Seq::empty());
                        }
                        return None;
                    },
                }
            }
            start = i + 1;
            proof {
                assert(text@.subrange(start as int, i + 1) =~= Seq::<char>::empty());
            }
        } else {
            proof {
                assert(text@.subrange(start as int, i + 1) =~= text@.subrange(
                    start as int,
                    i as int,
                ).push(text@[i as int]));
            }
        }
        i = i + 1;
    }
    if n > start {
        if n - start >= 0x8000_0000 {
            return None;
        }
        let piece = text.substring_char(start, n);
        proof {
            assert(trim_chars(piece@) == piece@) by {
                lemma_trim_front_chars_skip(piece@, 0);
                lemma_trim_back_chars_take(piece@, piece@.len() as int);
                assert(piece@.take(piece@.len() as int) =~= piece@);
            }
        }
        match crate::fp::parse_f32_bits(piece) {
            Some(v) => {
                vals.push(v);
            },
            None => {
                return None;
            },
        }
    }
    if vals.len() == 0 {
        None
    } else {
        Some(vals)
    }
}

/// Law: under the Euclidean metric the score of two vectors is exactly the
/// Euclidean distance with its sign flipped, which is the bit-level negation
/// of an IEEE-754 value.
pub proof fn lemma_score_euclidean_negates_distance(a: Seq<u32>, b: Seq<u32>)
    ensures
        score_spec(Metric::Euclidean, a, b) == flip_sign(euclidean_distance_spec(a, b)),
{
}

} // verus!
