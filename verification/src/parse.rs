//! Splitting a line-aligned chunk into logical lines and parsing each
//! line as a `key;value` record.
//!
//! A line is the text between newlines; a trailing carriage return is
//! stripped. The line splits at the first `;`: the key is the text before
//! it and must be nonempty; the value is the text after it and must be a
//! plain decimal number, optionally signed and with an optional fractional
//! part. The value is held exactly as a whole number of tenths (further
//! fractional digits are truncated); a value whose tenths do not fit an
//! `i64` is rejected. A line that fails any of these checks becomes a
//! skip marker with the reason, and never aborts the batch. The empty
//! trailing line after a final newline is dropped, not reported.
use vstd::prelude::*;
use crate::chunker::nl;
use crate::stats::fits_value;

verus! {

/// Why a line was skipped rather than parsed into a record.
#[derive(Clone, Copy, Debug, PartialEq, Eq, Structural)]
pub enum SkipReason {
    /// The line holds no `;` separator.
    MissingSeparator,
    /// The text after the first `;` is not a decimal number in range.
    NonNumeric,
    /// The text before the first `;` is empty.
    EmptyKey,
}

/// The outcome of parsing one line, as mathematical values.
pub ghost enum LineModel {
    Rec { key: Seq<u8>, tenths: int },
    Skip { reason: SkipReason },
}

/// The outcome of parsing one line: a record or a skip marker.
pub enum Parsed {
    Record { key: Vec<u8>, tenths: i64 },
    Skipped { reason: SkipReason },
}

impl View for Parsed {
    type V = LineModel;

    open spec fn view(&self) -> LineModel {
        match self {
            Parsed::Record { key, tenths } => LineModel::Rec {
                key: key@,
                tenths: *tenths as int,
            },
            Parsed::Skipped { reason } => LineModel::Skip { reason: *reason },
        }
    }
}

/// The logical lines of `s`, split at newlines, where `cur` is the part
/// of the current line already seen. A final line without a trailing
/// newline still counts; the empty text after a trailing newline does not.
pub open spec fn lines_rec(s: Seq<u8>, cur: Seq<u8>) -> Seq<Seq<u8>>
    decreases s.len(),
{
    if s.len() == 0 {
        if cur.len() == 0 {
            Seq::empty()
        } else {
            seq![cur]
        }
    } else if s[0] == nl() {
        seq![cur] + lines_rec(s.drop_first(), Seq::empty())
    } else {
        lines_rec(s.drop_first(), cur.push(s[0]))
    }
}

/// The logical lines of a byte sequence.
pub open spec fn lines_of(s: Seq<u8>) -> Seq<Seq<u8>> {
    lines_rec(s, Seq::empty())
}

/// There are never more lines than bytes seen, plus the line in progress.
pub proof fn lemma_lines_rec_len(s: Seq<u8>, cur: Seq<u8>)
    ensures
        lines_rec(s, cur).len() <= s.len() + 1,
    decreases s.len(),
{
    if s.len() == 0 {
    } else if s[0] == nl() {
        lemma_lines_rec_len(s.drop_first(), Seq::empty());
    } else {
        lemma_lines_rec_len(s.drop_first(), cur.push(s[0]));
    }
}

proof fn lemma_lines_rec_concat(a: Seq<u8>, b: Seq<u8>, cur: Seq<u8>)
    requires
        a.len() > 0,
        a.last() == nl(),
    ensures
        lines_rec(a + b, cur) == lines_rec(a, cur) + lines_rec(b, Seq::empty()),
    decreases a.len(),
{
    if a.len() == 1 {
        assert((a + b).drop_first() =~= b);
        assert(a.drop_first() =~= Seq::<u8>::empty());
        assert(lines_rec(a, cur) =~= seq![cur]);
        assert(lines_rec(a + b, cur) =~= seq![cur] + lines_rec(b, Seq::empty()));
    } else {
        assert((a + b).drop_first() =~= a.drop_first() + b);
        assert(a.drop_first().last() == nl());
        if a[0] == nl() {
            lemma_lines_rec_concat(a.drop_first(), b, Seq::empty());
            assert(lines_rec(a, cur) + lines_rec(b, Seq::empty()) =~= seq![cur] + (lines_rec(
                a.drop_first(),
                Seq::empty(),
            ) + lines_rec(b, Seq::empty())));
        } else {
            lemma_lines_rec_concat(a.drop_first(), b, cur.push(a[0]));
        }
    }
}

/// Chunking at a newline is invisible to line splitting: the lines of a
/// concatenation whose first part ends at a newline are the lines of the
/// parts, in order. This is why parsing chunk by chunk parses the whole
/// input.
pub proof fn lemma_lines_concat(a: Seq<u8>, b: Seq<u8>)
    requires
        a.len() > 0,
        a.last() == nl(),
    ensures
        lines_of(a + b) == lines_of(a) + lines_of(b),
{
    lemma_lines_rec_concat(a, b, Seq::empty());
}

/// An ASCII decimal digit.
pub open spec fn is_digit(b: u8) -> bool {
    48 <= b <= 57
}

/// Every byte of `s` is a digit.
pub open spec fn all_digits(s: Seq<u8>) -> bool {
    forall|i: int| 0 <= i < s.len() ==> is_digit(#[trigger] s[i])
}

/// The value of a digit string read in base 10.
pub open spec fn digits_val(s: Seq<u8>) -> int
    decreases s.len(),
{
    if s.len() == 0 {
        0
    } else {
        digits_val(s.drop_last()) * 10 + (s.last() - 48)
    }
}

/// A digit string's value is never negative.
pub proof fn lemma_digits_val_nonneg(s: Seq<u8>)
    requires
        all_digits(s),
    ensures
        digits_val(s) >= 0,
    decreases s.len(),
{
    if s.len() > 0 {
        assert(all_digits(s.drop_last())) by {
            assert(forall|i: int| 0 <= i < s.len() - 1 ==> s.drop_last()[i] == #[trigger] s[i]);
        }
        lemma_digits_val_nonneg(s.drop_last());
    }
}

/// The magnitude, in tenths, of an unsigned decimal body `digits` or
/// `digits.digits`: ten times the integer part plus the first fractional
/// digit; fractional digits past the first are truncated away.
pub open spec fn body_mag_tenths(body: Seq<u8>) -> Option<int> {
    match body.index_of_first(46u8) {
        None => if body.len() > 0 && all_digits(body) {
            Some(digits_val(body) * 10)
        } else {
            None
        },
        Some(d) => {
            let ip = body.take(d);
            let fp = body.skip(d + 1);
            if fp.len() > 0 && all_digits(ip) && all_digits(fp) {
                Some(digits_val(ip) * 10 + (fp[0] - 48))
            } else {
                None
            }
        },
    }
}

/// The value of a decimal literal in tenths: an optional leading minus
/// sign, then a body whose magnitude must fit an `i64`. Anything else is
/// not a value.
pub open spec fn value_tenths(s: Seq<u8>) -> Option<int> {
    let neg = s.len() > 0 && s[0] == 45u8;
    let body = if neg {
        s.drop_first()
    } else {
        s
    };
    match body_mag_tenths(body) {
        None => None,
        Some(m) => if m <= i64::MAX {
            Some(
                if neg {
                    -m
                } else {
                    m
                },
            )
        } else {
            None
        },
    }
}

/// A parsed value always fits the accumulator's representation.
pub proof fn lemma_value_fits(s: Seq<u8>)
    ensures
        value_tenths(s) is Some ==> fits_value(value_tenths(s).unwrap()),
{
    let neg = s.len() > 0 && s[0] == 45u8;
    let body = if neg {
        s.drop_first()
    } else {
        s
    };
    if value_tenths(s) is Some {
        let m = body_mag_tenths(body).unwrap();
        assert(m >= 0) by {
            body.index_of_first_ensures(46u8);
            match body.index_of_first(46u8) {
                None => {
                    lemma_digits_val_nonneg(body);
                },
                Some(d) => {
                    lemma_digits_val_nonneg(body.take(d));
                    assert(is_digit(body.skip(d + 1)[0]));
                },
            }
        }
    }
}

/// A trailing carriage return is not part of the line.
pub open spec fn strip_cr(line: Seq<u8>) -> Seq<u8> {
    if line.len() > 0 && line.last() == 13u8 {
        line.drop_last()
    } else {
        line
    }
}

/// What one line means: a record made of the nonempty key before the
/// first `;` and the decimal value in tenths after it, or the reason the
/// line is skipped.
pub open spec fn parse_line_spec(line: Seq<u8>) -> LineModel {
    let l = strip_cr(line);
    match l.index_of_first(59u8) {
        None => LineModel::Skip { reason: SkipReason::MissingSeparator },
        Some(j) => {
            let key = l.take(j);
            let val = l.skip(j + 1);
            if key.len() == 0 {
                LineModel::Skip { reason: SkipReason::EmptyKey }
            } else {
                match value_tenths(val) {
                    None => LineModel::Skip { reason: SkipReason::NonNumeric },
                    Some(t) => LineModel::Rec { key, tenths: t },
                }
            }
        },
    }
}

proof fn lemma_first_index(s: Seq<u8>, b: u8, j: int)
    requires
        0 <= j < s.len(),
        s[j] == b,
        forall|k: int| 0 <= k < j ==> s[k] != b,
    ensures
        s.index_of_first(b) == Some(j),
{
    s.index_of_first_ensures(b);
    assert(s.contains(b)) by {
        assert(s[j] == b);
    }
    let i = s.index_of_first(b).unwrap();
    if i < j {
        assert(s[i] != b);
    }
    if j < i {
        assert(s[j] != b);
    }
}

proof fn lemma_no_index(s: Seq<u8>, b: u8)
    requires
        forall|k: int| 0 <= k < s.len() ==> s[k] != b,
    ensures
        s.index_of_first(b) is None,
{
    s.index_of_first_ensures(b);
    if s.index_of_first(b) is Some {
        let i = s.index_of_first(b).unwrap();
        assert(s[i] != b);
    }
}

/// A copy of the bytes of `v` between `from` and `to`.
pub(crate) fn subvec(v: &Vec<u8>, from: usize, to: usize) -> (r: Vec<u8>)
    requires
        from <= to <= v@.len(),
    ensures
        r@ == v@.subrange(from as int, to as int),
{
    let mut r: Vec<u8> = Vec::new();
    let mut i: usize = from;
    while i < to
        invariant
            from <= i <= to <= v@.len(),
            r@ == v@.subrange(from as int, i as int),
        decreases to - i,
    {
        proof {
            assert(v@.subrange(from as int, i as int + 1) =~= v@.subrange(
                from as int,
                i as int,
            ).push(v@[i as int]));
        }
        r.push(v[i]);
        i = i + 1;
    }
    r
}

enum Digits {
    NotDigits,
    TooBig,
    Val(i64),
}

/// Scan `v[from..to]` as a digit string and compute its value, reporting
/// a non-digit byte or a value beyond `i64`.
fn scan_digits(v: &Vec<u8>, from: usize, to: usize) -> (r: Digits)
    requires
        from <= to <= v@.len(),
    ensures
        match r {
            Digits::NotDigits => !all_digits(v@.subrange(from as int, to as int)),
            Digits::TooBig => all_digits(v@.subrange(from as int, to as int)) && digits_val(
                v@.subrange(from as int, to as int),
            ) > i64::MAX,
            Digits::Val(x) => all_digits(v@.subrange(from as int, to as int)) && digits_val(
                v@.subrange(from as int, to as int),
            ) == x as int && x >= 0,
        },
{
    let ghost whole = v@.subrange(from as int, to as int);
    let mut acc: i64 = 0;
    let mut big = false;
    let mut i: usize = from;
    while i < to
        invariant
            from <= i <= to <= v@.len(),
            whole == v@.subrange(from as int, to as int),
            all_digits(v@.subrange(from as int, i as int)),
            !big ==> acc as int == digits_val(v@.subrange(from as int, i as int)) && acc >= 0,
            big ==> digits_val(v@.subrange(from as int, i as int)) > i64::MAX,
        decreases to - i,
    {
        let b = v[i];
        if b < 48 || b > 57 {
            proof {
                assert(v@.subrange(from as int, to as int)[i - from] == v@[i as int]);
                assert(!all_digits(whole));
            }
            return Digits::NotDigits;
        }
        let ghost pre = v@.subrange(from as int, i as int);
        let ghost ext = v@.subrange(from as int, i as int + 1);
        proof {
            assert(ext =~= pre.push(v@[i as int]));
            assert(ext.drop_last() =~= pre);
            assert(digits_val(ext) == digits_val(pre) * 10 + (v@[i as int] - 48));
            assert(forall|k: int| 0 <= k < ext.len() ==> is_digit(#[trigger] ext[k]));
        }
        if big {
            proof {
                assert(digits_val(pre) * 10 >= digits_val(pre)) by (nonlinear_arith)
                    requires digits_val(pre) >= 0;
            }
        } else {
            let wide: i128 = (acc as i128) * 10 + ((b - 48) as i128);
            if wide > (i64::MAX as i128) {
                big = true;
            } else {
                acc = wide as i64;
            }
        }
        i = i + 1;
    }
    proof {
        assert(v@.subrange(from as int, i as int) =~= whole);
    }
    if big {
        Digits::TooBig
    } else {
        Digits::Val(acc)
    }
}

/// Parse the text after the separator as a decimal value in tenths.
pub fn parse_value(s: &Vec<u8>) -> (r: Option<i64>)
    ensures
        match r {
            Some(t) => value_tenths(s@) == Some(t as int),
            None => value_tenths(s@) is None,
        },
{
    let n = s.len();
    let neg = n > 0 && s[0] == 45u8;
    let start: usize = if neg {
        1
    } else {
        0
    };
    let ghost body = if neg {
        s@.drop_first()
    } else {
        s@
    };
    proof {
        assert(body =~= s@.subrange(start as int, n as int));
    }
    let mut d: usize = start;
    while d < n && s[d] != 46u8
        invariant
            start <= d <= n == s@.len(),
            forall|k: int| start <= k < d ==> s@[k] != 46u8,
        decreases n - d,
    {
        d = d + 1;
    }
    proof {
        assert(forall|k: int| 0 <= k < d - start ==> body[k] == s@[start + k] && s@[start + k] != 46u8);
    }
    if d == n {
        // no fractional dot: the whole body must be digits
        proof {
            lemma_no_index(body, 46u8);
        }
        if n == start {
            return None;
        }
        match scan_digits(s, start, n) {
            Digits::NotDigits => {
                proof {
                    assert(body =~= s@.subrange(start as int, n as int));
                }
                return None;
            },
            Digits::TooBig => {
                proof {
                    assert(digits_val(body) * 10 > i64::MAX) by (nonlinear_arith)
                        requires digits_val(body) > i64::MAX;
                }
                return None;
            },
            Digits::Val(x) => {
                let wide: i128 = (x as i128) * 10;
                if wide > (i64::MAX as i128) {
                    return None;
                }
                let mag = wide as i64;
                return Some(if neg { -mag } else { mag });
            },
        }
    }
    // s[d] == '.', minimal: body has its first dot at d - start
    proof {
        assert(body[d - start] == s@[d as int]);
        lemma_first_index(body, 46u8, d - start);
    }
    let ghost ip = body.take(d - start);
    let ghost fp = body.skip(d - start + 1);
    proof {
        assert(ip =~= s@.subrange(start as int, d as int));
        assert(fp =~= s@.subrange(d as int + 1, n as int));
    }
    if d + 1 == n {
        // empty fractional part
        return None;
    }
    let frac0 = s[d + 1];
    if frac0 < 48 || frac0 > 57 {
        proof {
            assert(fp[0] == s@[d + 1]);
            assert(!all_digits(fp));
        }
        return None;
    }
    match scan_digits(s, d + 1, n) {
        Digits::NotDigits => {
            return None;
        },
        Digits::TooBig | Digits::Val(_) => {},
    }
    match scan_digits(s, start, d) {
        Digits::NotDigits => {
            return None;
        },
        Digits::TooBig => {
            proof {
                assert(fp[0] == s@[d + 1]);
                assert(digits_val(ip) * 10 + (fp[0] - 48) > i64::MAX) by (nonlinear_arith)
                    requires digits_val(ip) > i64::MAX, fp[0] >= 48;
            }
            return None;
        },
        Digits::Val(x) => {
            proof {
                assert(fp[0] == s@[d + 1]);
            }
            let wide: i128 = (x as i128) * 10 + ((frac0 - 48) as i128);
            if wide > (i64::MAX as i128) {
                return None;
            }
            let mag = wide as i64;
            return Some(if neg { -mag } else { mag });
        },
    }
}

/// Parse one logical line into a record or a skip marker, exactly as
/// `parse_line_spec` reads it.
pub fn parse_line(line: &Vec<u8>) -> (r: Parsed)
    ensures
        r@ == parse_line_spec(line@),
{
    let n = line.len();
    let e: usize = if n > 0 && line[n - 1] == 13u8 {
        n - 1
    } else {
        n
    };
    let ghost l = strip_cr(line@);
    proof {
        assert(l =~= line@.subrange(0, e as int));
    }
    let mut j: usize = 0;
    while j < e && line[j] != 59u8
        invariant
            j <= e <= line@.len(),
            forall|k: int| 0 <= k < j ==> line@[k] != 59u8,
        decreases e - j,
    {
        j = j + 1;
    }
    proof {
        assert(forall|k: int| 0 <= k < l.len() ==> l[k] == line@[k]);
    }
    if j == e {
        proof {
            lemma_no_index(l, 59u8);
        }
        return Parsed::Skipped { reason: SkipReason::MissingSeparator };
    }
    proof {
        lemma_first_index(l, 59u8, j as int);
    }
    if j == 0 {
        proof {
            assert(l.take(0) =~= Seq::<u8>::empty());
        }
        return Parsed::Skipped { reason: SkipReason::EmptyKey };
    }
    let key = subvec(line, 0, j);
    let val = subvec(line, j + 1, e);
    proof {
        assert(key@ =~= l.take(j as int));
        assert(val@ =~= l.skip(j as int + 1));
    }
    match parse_value(&val) {
        None => Parsed::Skipped { reason: SkipReason::NonNumeric },
        Some(t) => Parsed::Record { key, tenths: t },
    }
}

/// The views of a vector of byte vectors.
pub open spec fn views_of(ls: Seq<Vec<u8>>) -> Seq<Seq<u8>> {
    ls.map_values(|v: Vec<u8>| v@)
}

/// Split a chunk into its logical lines.
pub fn split_lines(chunk: &Vec<u8>) -> (r: Vec<Vec<u8>>)
    ensures
        views_of(r@) == lines_of(chunk@),
{
    let mut out: Vec<Vec<u8>> = Vec::new();
    let mut cur: Vec<u8> = Vec::new();
    let mut i: usize = 0;
    proof {
        assert(chunk@.skip(0) =~= chunk@);
        assert(views_of(out@) + lines_rec(chunk@, cur@) =~= lines_rec(chunk@, cur@));
    }
    while i < chunk.len()
        invariant
            i <= chunk@.len(),
            lines_of(chunk@) == views_of(out@) + lines_rec(chunk@.skip(i as int), cur@),
        decreases chunk@.len() - i,
    {
        let b = chunk[i];
        let ghost rest = chunk@.skip(i as int);
        proof {
            assert(rest[0] == chunk@[i as int]);
            assert(rest.drop_first() =~= chunk@.skip(i as int + 1));
        }
        if b == 10u8 {
            let ghost prev_out = out@;
            let ghost prev_cur = cur@;
            out.push(cur);
            cur = Vec::new();
            proof {
                assert(views_of(out@) =~= views_of(prev_out).push(prev_cur));
                assert(views_of(prev_out) + (seq![prev_cur] + lines_rec(
                    chunk@.skip(i as int + 1),
                    Seq::empty(),
                )) =~= views_of(prev_out).push(prev_cur) + lines_rec(
                    chunk@.skip(i as int + 1),
                    Seq::empty(),
                ));
            }
        } else {
            cur.push(b);
        }
        i = i + 1;
    }
    proof {
        assert(chunk@.skip(chunk@.len() as int) =~= Seq::<u8>::empty());
    }
    if cur.len() > 0 {
        let ghost prev_out = out@;
        let ghost prev_cur = cur@;
        out.push(cur);
        proof {
            assert(views_of(out@) =~= views_of(prev_out).push(prev_cur));
            assert(views_of(prev_out) + seq![prev_cur] =~= views_of(prev_out).push(prev_cur));
        }
    } else {
        proof {
            assert(views_of(out@) + Seq::<Seq<u8>>::empty() =~= views_of(out@));
        }
    }
    out
}

} // verus!
