//! The executable incremental codec, verified against the spec-level
//! grammar in the parent module.

use vstd::prelude::*;

use super::bulk_string::BulkString;
use super::buf::{buf_advance, buf_bytes, bytes_view};
use super::laws::{lemma_dec_val_nonneg, lemma_digit_run_is, lemma_line_run_is};
use super::{
    crlf, dec_rep, dec_val, digit_run, elems_view, encode_view, encode_views, frame_view, int_rep,
    is_digit, is_line_byte, line_run, parse_bool, parse_bulk, parse_decimal, parse_elems,
    parse_frame, parse_int, parse_line, parse_null_marker, probe_elems, probe_frame, FrameView,
    RespArray, RespError, RespFrame, Scan,
};

verus! {

broadcast use vstd::seq::group_seq_axioms, vstd::std_specs::vec::group_vec_axioms;

/// Index one past the leading digit run that starts at `pos`.
pub(crate) fn scan_digits(s: &[u8], pos: usize) -> (r: usize)
    requires
        pos <= s@.len(),
    ensures
        pos <= r <= s@.len(),
        r - pos == digit_run(s@.skip(pos as int)),
        forall|j: int| pos <= j < r ==> is_digit(#[trigger] s@[j]),
        r < s@.len() ==> !is_digit(s@[r as int]),
{
    let mut i: usize = pos;
    while i < s.len() && 48 <= s[i] && s[i] <= 57
        invariant
            pos <= i <= s@.len(),
            forall|j: int| pos <= j < i ==> is_digit(#[trigger] s@[j]),
        decreases s@.len() - i,
    {
        i = i + 1;
    }
    proof {
        let t = s@.skip(pos as int);
        assert forall|j: int| 0 <= j < i - pos implies is_digit(#[trigger] t[j]) by {
            assert(t[j] == s@[pos + j]);
        }
        if i < s@.len() {
            assert(t[i - pos] == s@[i as int]);
        }
        lemma_digit_run_is(t, i - pos);
    }
    i
}

/// Index one past the leading run of simple-string bytes starting at `pos`.
pub(crate) fn scan_line(s: &[u8], pos: usize) -> (r: usize)
    requires
        pos <= s@.len(),
    ensures
        pos <= r <= s@.len(),
        r - pos == line_run(s@.skip(pos as int)),
        forall|j: int| pos <= j < r ==> is_line_byte(#[trigger] s@[j]),
        r < s@.len() ==> !is_line_byte(s@[r as int]),
{
    let mut i: usize = pos;
    while i < s.len() && s[i] != 13 && s[i] != 10
        invariant
            pos <= i <= s@.len(),
            forall|j: int| pos <= j < i ==> is_line_byte(#[trigger] s@[j]),
        decreases s@.len() - i,
    {
        i = i + 1;
    }
    proof {
        let t = s@.skip(pos as int);
        assert forall|j: int| 0 <= j < i - pos implies is_line_byte(#[trigger] t[j]) by {
            assert(t[j] == s@[pos + j]);
        }
        if i < s@.len() {
            assert(t[i - pos] == s@[i as int]);
        }
        lemma_line_run_is(t, i - pos);
    }
    i
}

/// A copy of the bytes in `[a, b)`.
pub(crate) fn copy_range(s: &[u8], a: usize, b: usize) -> (r: Vec<u8>)
    requires
        a <= b <= s@.len(),
    ensures
        r@ == s@.subrange(a as int, b as int),
{
    let mut out: Vec<u8> = Vec::new();
    let mut i: usize = a;
    while i < b
        invariant
            a <= i <= b <= s@.len(),
            out@ == s@.subrange(a as int, i as int),
        decreases b - i,
    {
        out.push(s[i]);
        proof {
            assert(out@ =~= s@.subrange(a as int, i + 1));
        }
        i = i + 1;
    }
    out
}

/// A canonical decimal number followed by CRLF, starting at `pos`. A
/// `Malformed` result also covers a well-formed number too large for a
/// 64-bit word, which no caller accepts.
pub(crate) fn parse_decimal_at(s: &[u8], pos: usize) -> (r: Result<(u64, usize), RespError>)
    requires
        pos <= s@.len(),
    ensures
        ({
            let t = s@.skip(pos as int);
            match r {
                Ok((v, end)) => pos + 3 <= end <= s@.len() && parse_decimal(t) == (Scan::Done {
                    value: v as nat,
                    used: (end - pos) as nat,
                }),
                Err(e) => (e == RespError::NotComplete <==> parse_decimal(t) is Incomplete)
                    && (e == RespError::Malformed ==> (parse_decimal(t) is Malformed
                    || (parse_decimal(t) matches Scan::Done { value, used } && value
                    > u64::MAX as nat))),
            }
        }),
{
    let ghost t = s@.skip(pos as int);
    let k = scan_digits(s, pos);
    proof {
        assert(t.len() == s@.len() - pos);
        assert(digit_run(t) == k - pos);
    }
    if k == s.len() {
        return Err(RespError::NotComplete);
    }
    proof {
        assert(t[k - pos] == s@[k as int]);
    }
    if k == pos {
        return Err(RespError::Malformed);
    }
    if s[k] != 13 {
        return Err(RespError::Malformed);
    }
    if k + 1 == s.len() {
        return Err(RespError::NotComplete);
    }
    proof {
        assert(t[k - pos + 1] == s@[k + 1]);
    }
    if s[k + 1] != 10 {
        return Err(RespError::Malformed);
    }
    proof {
        assert(t[0] == s@[pos as int]);
    }
    if k - pos > 1 && s[pos] == 48 {
        return Err(RespError::Malformed);
    }
    // the digits are in range; accumulate their value, tracking overflow
    let ghost digits = t.take((k - pos) as int);
    proof {
        assert forall|j: int| 0 <= j < digits.len() implies is_digit(#[trigger] digits[j]) by {
            assert(digits[j] == s@[pos + j]);
        }
    }
    let mut acc: u64 = 0;
    let mut overflow: bool = false;
    let mut i: usize = pos;
    while i < k
        invariant
            pos <= i <= k <= s@.len() - 1,
            digits == s@.skip(pos as int).take((k - pos) as int),
            all_digits_between(s@, pos as int, k as int),
            !overflow ==> acc == dec_val(digits.take((i - pos) as int)),
            overflow ==> dec_val(digits.take((i - pos) as int)) > u64::MAX as int,
        decreases k - i,
    {
        let d = s[i];
        proof {
            assert(digits[i - pos] == s@[i as int]);
            assert(is_digit(d));
            let pre = digits.take((i - pos) as int);
            let cur = digits.take((i - pos) as int + 1);
            assert(cur.drop_last() =~= pre);
            assert(cur.last() == d);
            assert(dec_val(cur) == dec_val(pre) * 10 + d - 48);
        }
        if !overflow {
            if acc > u64::MAX / 10 || (acc == u64::MAX / 10 && d - 48 > (u64::MAX % 10) as u8) {
                overflow = true;
                proof {
                    let pre = digits.take((i - pos) as int);
                    let cur = digits.take((i - pos) as int + 1);
                    assert(u64::MAX as int == (u64::MAX / 10) as int * 10 + (u64::MAX % 10) as int);
                    assert(dec_val(cur) > u64::MAX as int);
                }
            } else {
                acc = acc * 10 + (d - 48) as u64;
            }
        } else {
            proof {
                let pre = digits.take((i - pos) as int);
                let cur = digits.take((i - pos) as int + 1);
                assert(dec_val(cur) == dec_val(pre) * 10 + d - 48);
            }
        }
        i = i + 1;
    }
    proof {
        assert(digits.take((k - pos) as int) =~= digits);
    }
    if overflow {
        proof {
            lemma_dec_val_nonneg(digits);
        }
        return Err(RespError::Malformed);
    }
    Ok((acc, k + 2))
}

/// All bytes in `[a, b)` are decimal digits.
pub open spec fn all_digits_between(s: Seq<u8>, a: int, b: int) -> bool {
    forall|j: int| a <= j < b ==> is_digit(#[trigger] s[j])
}

/// A delimiter-free line followed by CRLF, starting at `pos`.
pub(crate) fn parse_line_at(s: &[u8], pos: usize) -> (r: Result<(Vec<u8>, usize), RespError>)
    requires
        pos <= s@.len(),
    ensures
        ({
            let t = s@.skip(pos as int);
            match r {
                Ok((d, end)) => pos + 2 <= end <= s@.len() && parse_line(t) == (Scan::Done {
                    value: d@,
                    used: (end - pos) as nat,
                }),
                Err(e) => (e == RespError::NotComplete <==> parse_line(t) is Incomplete) && (e
                    == RespError::Malformed <==> parse_line(t) is Malformed),
            }
        }),
{
    let ghost t = s@.skip(pos as int);
    let k = scan_line(s, pos);
    proof {
        assert(line_run(t) == k - pos);
    }
    if k == s.len() {
        return Err(RespError::NotComplete);
    }
    proof {
        assert(t[k - pos] == s@[k as int]);
    }
    if s[k] == 10 {
        return Err(RespError::Malformed);
    }
    if k + 1 == s.len() {
        return Err(RespError::NotComplete);
    }
    proof {
        assert(t[k - pos + 1] == s@[k + 1]);
    }
    if s[k + 1] != 10 {
        return Err(RespError::Malformed);
    }
    let d = copy_range(s, pos, k);
    proof {
        assert(d@ =~= t.take((k - pos) as int));
    }
    Ok((d, k + 2))
}

/// The fixed null marker `-1` CRLF; `pos` stands on the minus sign.
pub(crate) fn parse_null_at(s: &[u8], pos: usize) -> (r: Result<usize, RespError>)
    requires
        pos < s@.len(),
        s@[pos as int] == 45,
    ensures
        ({
            let t = s@.skip(pos as int);
            match r {
                Ok(end) => end == pos + 4 && end <= s@.len() && parse_null_marker(t)
                    == (Scan::Done { value: true, used: 4nat }),
                Err(e) => (e == RespError::NotComplete <==> parse_null_marker(t) is Incomplete)
                    && (e == RespError::Malformed <==> parse_null_marker(t) is Malformed),
            }
        }),
{
    let ghost t = s@.skip(pos as int);
    if s.len() - pos == 1 {
        return Err(RespError::NotComplete);
    }
    proof {
        assert(t[1] == s@[pos + 1]);
    }
    if s[pos + 1] != 49 {
        return Err(RespError::Malformed);
    }
    if s.len() - pos == 2 {
        return Err(RespError::NotComplete);
    }
    proof {
        assert(t[2] == s@[pos + 2]);
    }
    if s[pos + 2] != 13 {
        return Err(RespError::Malformed);
    }
    if s.len() - pos == 3 {
        return Err(RespError::NotComplete);
    }
    proof {
        assert(t[3] == s@[pos + 3]);
    }
    if s[pos + 3] != 10 {
        return Err(RespError::Malformed);
    }
    Ok(pos + 4)
}

/// Body of a boolean frame, starting at `pos`.
pub(crate) fn parse_bool_at(s: &[u8], pos: usize) -> (r: Result<(bool, usize), RespError>)
    requires
        pos <= s@.len(),
    ensures
        ({
            let t = s@.skip(pos as int);
            match r {
                Ok((b, end)) => end == pos + 3 && end <= s@.len() && parse_bool(t) == (Scan::Done {
                    value: b,
                    used: 3nat,
                }),
                Err(e) => (e == RespError::NotComplete <==> parse_bool(t) is Incomplete) && (e
                    == RespError::Malformed <==> parse_bool(t) is Malformed),
            }
        }),
{
    let ghost t = s@.skip(pos as int);
    if s.len() == pos {
        return Err(RespError::NotComplete);
    }
    proof {
        assert(t[0] == s@[pos as int]);
    }
    let c = s[pos];
    if c != 116 && c != 102 {
        return Err(RespError::Malformed);
    }
    if s.len() - pos == 1 {
        return Err(RespError::NotComplete);
    }
    proof {
        assert(t[1] == s@[pos + 1]);
    }
    if s[pos + 1] != 13 {
        return Err(RespError::Malformed);
    }
    if s.len() - pos == 2 {
        return Err(RespError::NotComplete);
    }
    proof {
        assert(t[2] == s@[pos + 2]);
    }
    if s[pos + 2] != 10 {
        return Err(RespError::Malformed);
    }
    Ok((c == 116, pos + 3))
}

/// Body of an integer frame, starting at `pos`.
pub(crate) fn parse_int_at(s: &[u8], pos: usize) -> (r: Result<(i64, usize), RespError>)
    requires
        pos <= s@.len(),
    ensures
        ({
            let t = s@.skip(pos as int);
            match r {
                Ok((v, end)) => pos < end <= s@.len() && parse_int(t) == (Scan::Done {
                    value: FrameView::Int(v),
                    used: (end - pos) as nat,
                }),
                Err(e) => (e == RespError::NotComplete <==> parse_int(t) is Incomplete) && (e
                    == RespError::Malformed <==> parse_int(t) is Malformed),
            }
        }),
{
    let ghost t = s@.skip(pos as int);
    if s.len() == pos {
        return Err(RespError::NotComplete);
    }
    proof {
        assert(t[0] == s@[pos as int]);
    }
    let neg = s[pos] == 45;
    let start = if neg {
        pos + 1
    } else {
        pos
    };
    proof {
        assert(t.skip(1) =~= s@.skip(pos + 1));
    }
    match parse_decimal_at(s, start) {
        Err(e) => Err(e),
        Ok((v, end)) => {
            if neg {
                if v == 0 {
                    return Err(RespError::Malformed);
                }
                if v > 0x8000_0000_0000_0000u64 {
                    return Err(RespError::Malformed);
                }
                let out: i64 = if v == 0x8000_0000_0000_0000u64 {
                    i64::MIN
                } else {
                    -(v as i64)
                };
                Ok((out, end))
            } else {
                if v > 0x7fff_ffff_ffff_ffffu64 {
                    return Err(RespError::Malformed);
                }
                Ok((v as i64, end))
            }
        },
    }
}

/// Body of a bulk string frame, starting at `pos`.
pub(crate) fn parse_bulk_at(s: &[u8], pos: usize) -> (r: Result<(BulkString, usize), RespError>)
    requires
        pos <= s@.len(),
    ensures
        ({
            let t = s@.skip(pos as int);
            match r {
                Ok((b, end)) => pos < end <= s@.len() && parse_bulk(t) == (Scan::Done {
                    value: b@,
                    used: (end - pos) as nat,
                }) && (b.is_null ==> b.data@.len() == 0),
                Err(e) => (e == RespError::NotComplete <==> parse_bulk(t) is Incomplete) && (e
                    == RespError::Malformed <==> parse_bulk(t) is Malformed),
            }
        }),
{
    let ghost t = s@.skip(pos as int);
    if s.len() == pos {
        return Err(RespError::NotComplete);
    }
    proof {
        assert(t[0] == s@[pos as int]);
    }
    if s[pos] == 45 {
        match parse_null_at(s, pos) {
            Err(e) => Err(e),
            Ok(end) => Ok((BulkString::new(Vec::new(), true), end)),
        }
    } else {
        match parse_decimal_at(s, pos) {
            Err(e) => Err(e),
            Ok((v, end1)) => {
                if v > usize::MAX as u64 {
                    return Err(RespError::Malformed);
                }
                let n = v as usize;
                let avail = s.len() - end1;
                if avail < n {
                    return Err(RespError::NotComplete);
                }
                if avail - n < 2 {
                    return Err(RespError::NotComplete);
                }
                proof {
                    assert(t[end1 - pos + n] == s@[end1 + n]);
                    assert(t[end1 - pos + n + 1] == s@[end1 + n + 1]);
                }
                if s[end1 + n] != 13 {
                    return Err(RespError::Malformed);
                }
                if s[end1 + n + 1] != 10 {
                    return Err(RespError::Malformed);
                }
                let data = copy_range(s, end1, end1 + n);
                proof {
                    assert(data@ =~= t.subrange((end1 - pos) as int, (end1 - pos + n) as int));
                }
                Ok((BulkString::new(data, false), end1 + n + 2))
            },
        }
    }
}

/// One whole frame, starting at `pos`.
#[verifier::rlimit(100)]
#[verifier::spinoff_prover]
pub(crate) fn parse_frame_at(s: &[u8], pos: usize) -> (r: Result<(RespFrame, usize), RespError>)
    requires
        pos <= s@.len(),
    ensures
        ({
            let t = s@.skip(pos as int);
            match r {
                Ok((f, end)) => pos < end <= s@.len() && parse_frame(t) == (Scan::Done {
                    value: frame_view(f),
                    used: (end - pos) as nat,
                }) && (f matches RespFrame::BulkString(b) ==> (b.is_null ==> b.data@.len() == 0))
                    && (f matches RespFrame::Array(a) ==> (a.is_null ==> a.elems@.len() == 0)),
                Err(e) => (e == RespError::NotComplete <==> parse_frame(t) is Incomplete) && (e
                    == RespError::Malformed <==> parse_frame(t) is Malformed),
            }
        }),
    decreases s@.len() - pos, 1int, 0nat,
{
    let ghost t = s@.skip(pos as int);
    if s.len() == pos {
        return Err(RespError::NotComplete);
    }
    proof {
        assert(t[0] == s@[pos as int]);
        assert(t.skip(1) =~= s@.skip(pos + 1));
    }
    let c = s[pos];
    if c == 43 {
        match parse_line_at(s, pos + 1) {
            Err(e) => Err(e),
            Ok((d, end)) => Ok((RespFrame::SimpleString(d), end)),
        }
    } else if c == 45 {
        match parse_line_at(s, pos + 1) {
            Err(e) => Err(e),
            Ok((d, end)) => Ok((RespFrame::SimpleError(d), end)),
        }
    } else if c == 58 {
        match parse_int_at(s, pos + 1) {
            Err(e) => Err(e),
            Ok((v, end)) => Ok((RespFrame::Integer(v), end)),
        }
    } else if c == 36 {
        match parse_bulk_at(s, pos + 1) {
            Err(e) => Err(e),
            Ok((b, end)) => Ok((RespFrame::BulkString(b), end)),
        }
    } else if c == 35 {
        match parse_bool_at(s, pos + 1) {
            Err(e) => Err(e),
            Ok((b, end)) => Ok((RespFrame::Boolean(b), end)),
        }
    } else if c == 42 {
        let rest_pos = pos + 1;
        if s.len() == rest_pos {
            return Err(RespError::NotComplete);
        }
        proof {
            assert(s@.skip(pos + 1)[0] == s@[pos + 1]);
        }
        if s[rest_pos] == 45 {
            match parse_null_at(s, rest_pos) {
                Err(e) => Err(e),
                Ok(end) => Ok((RespFrame::Array(RespArray { elems: Vec::new(), is_null: true }), end)),
            }
        } else {
            match parse_decimal_at(s, rest_pos) {
                Err(e) => Err(e),
                Ok((v, end1)) => {
                    if v > usize::MAX as u64 {
                        return Err(RespError::Malformed);
                    }
                    let n = v as usize;
                    proof {
                        assert(s@.skip(pos + 1).skip((end1 - rest_pos) as int) =~= s@.skip(
                            end1 as int,
                        ));
                    }
                    match parse_elems_at(s, end1, n) {
                        Err(e) => Err(e),
                        Ok((elems, end2)) => {
                            let a = RespArray { elems, is_null: false };
                            Ok((RespFrame::Array(a), end2))
                        },
                    }
                },
            }
        }
    } else if c == 126 {
        parse_setframe_at(s, pos)
    } else if c == 37 {
        parse_mapframe_at(s, pos)
    } else {
        Err(RespError::Malformed)
    }
}

/// A set frame, starting at the `~` prefix at `pos`.
#[verifier::rlimit(100)]
#[verifier::spinoff_prover]
pub(crate) fn parse_setframe_at(s: &[u8], pos: usize) -> (r: Result<
    (RespFrame, usize),
    RespError,
>)
    requires
        pos < s@.len(),
        s@[pos as int] == 126,
    ensures
        ({
            let t = s@.skip(pos as int);
            match r {
                Ok((f, end)) => pos < end <= s@.len() && parse_frame(t) == (Scan::Done {
                    value: frame_view(f),
                    used: (end - pos) as nat,
                }) && f is SetFrame,
                Err(e) => (e == RespError::NotComplete <==> parse_frame(t) is Incomplete) && (e
                    == RespError::Malformed <==> parse_frame(t) is Malformed),
            }
        }),
    decreases s@.len() - pos, 0int, 0nat,
{
    let ghost t = s@.skip(pos as int);
    proof {
        assert(t[0] == s@[pos as int]);
        assert(t.skip(1) =~= s@.skip(pos + 1));
    }
    let _slen = s.len();
    let rest_pos = pos + 1;
    match parse_decimal_at(s, rest_pos) {
        Err(e) => Err(e),
        Ok((v, end1)) => {
            if v > usize::MAX as u64 {
                return Err(RespError::Malformed);
            }
            let n = v as usize;
            proof {
                assert(s@.skip(pos + 1).skip((end1 - rest_pos) as int) =~= s@.skip(end1 as int));
            }
            match parse_elems_at(s, end1, n) {
                Err(e) => Err(e),
                Ok((elems, end2)) => Ok((RespFrame::SetFrame(elems), end2)),
            }
        },
    }
}

/// A map frame, starting at the `%` prefix at `pos`: a pair count, then
/// field and value frames alternating.
#[verifier::rlimit(100)]
#[verifier::spinoff_prover]
pub(crate) fn parse_mapframe_at(s: &[u8], pos: usize) -> (r: Result<
    (RespFrame, usize),
    RespError,
>)
    requires
        pos < s@.len(),
        s@[pos as int] == 37,
    ensures
        ({
            let t = s@.skip(pos as int);
            match r {
                Ok((f, end)) => pos < end <= s@.len() && parse_frame(t) == (Scan::Done {
                    value: frame_view(f),
                    used: (end - pos) as nat,
                }) && f is MapFrame,
                Err(e) => (e == RespError::NotComplete <==> parse_frame(t) is Incomplete) && (e
                    == RespError::Malformed <==> parse_frame(t) is Malformed),
            }
        }),
    decreases s@.len() - pos, 0int, 0nat,
{
    let ghost t = s@.skip(pos as int);
    proof {
        assert(t[0] == s@[pos as int]);
        assert(t.skip(1) =~= s@.skip(pos + 1));
    }
    let _slen = s.len();
    let rest_pos = pos + 1;
    match parse_decimal_at(s, rest_pos) {
        Err(e) => Err(e),
        Ok((v, end1)) => {
            if v > (usize::MAX / 2) as u64 {
                return Err(RespError::Malformed);
            }
            let n = v as usize;
            proof {
                assert(s@.skip(pos + 1).skip((end1 - rest_pos) as int) =~= s@.skip(end1 as int));
            }
            match parse_elems_at(s, end1, 2 * n) {
                Err(e) => Err(e),
                Ok((elems, end2)) => Ok((RespFrame::MapFrame(elems), end2)),
            }
        },
    }
}

/// Exactly `count` consecutive frames, starting at `pos`.
pub(crate) fn parse_elems_at(s: &[u8], pos: usize, count: usize) -> (r: Result<
    (Vec<RespFrame>, usize),
    RespError,
>)
    requires
        pos <= s@.len(),
    ensures
        ({
            let t = s@.skip(pos as int);
            match r {
                Ok((v, end)) => pos <= end <= s@.len() && v@.len() == count && parse_elems(
                    t,
                    count as nat,
                ) == (Scan::Done { value: elems_view(v@), used: (end - pos) as nat }),
                Err(e) => (e == RespError::NotComplete <==> parse_elems(t, count as nat)
                    is Incomplete) && (e == RespError::Malformed <==> parse_elems(t, count as nat)
                    is Malformed),
            }
        }),
    decreases s@.len() - pos, 2int, count as nat,
{
    let ghost t = s@.skip(pos as int);
    if count == 0 {
        let out: Vec<RespFrame> = Vec::new();
        proof {
            assert(elems_view(out@) =~= Seq::<FrameView>::empty());
        }
        return Ok((out, pos));
    }
    match parse_frame_at(s, pos) {
        Err(e) => Err(e),
        Ok((f, mid)) => {
            proof {
                assert(t.skip((mid - pos) as int) =~= s@.skip(mid as int));
            }
            match parse_elems_at(s, mid, count - 1) {
                Err(e) => Err(e),
                Ok((rest, end)) => {
                    let ghost rest_snap = rest@;
                    let mut out = rest;
                    out.insert(0, f);
                    proof {
                        assert(out@ =~= seq![f] + rest_snap);
                        assert(out@[0] == f);
                        assert(out@.skip(1) =~= rest_snap);
                        assert(elems_view(out@) =~= seq![frame_view(f)] + elems_view(rest_snap));
                    }
                    Ok((out, end))
                },
            }
        },
    }
}

// ---------------------------------------------------------------------------
// Encoding.
// ---------------------------------------------------------------------------

/// Appends a copy of `src` to `out`.
pub(crate) fn append_bytes(src: &Vec<u8>, out: &mut Vec<u8>)
    ensures
        final(out)@ == old(out)@ + src@,
{
    let ghost start = out@;
    let mut i: usize = 0;
    while i < src.len()
        invariant
            i <= src@.len(),
            out@ == start + src@.take(i as int),
        decreases src@.len() - i,
    {
        out.push(src[i]);
        proof {
            assert(out@ =~= start + src@.take(i + 1));
        }
        i = i + 1;
    }
    proof {
        assert(src@.take(src@.len() as int) =~= src@);
    }
}

/// Appends the canonical decimal digits of `n`.
pub(crate) fn write_dec(n: u64, out: &mut Vec<u8>)
    ensures
        final(out)@ == old(out)@ + dec_rep(n as nat),
    decreases n,
{
    if n < 10 {
        out.push(48 + n as u8);
        proof {
            assert(out@ =~= old(out)@ + dec_rep(n as nat));
        }
    } else {
        write_dec(n / 10, out);
        out.push(48 + (n % 10) as u8);
        proof {
            assert(out@ =~= old(out)@ + dec_rep(n as nat));
        }
    }
}

/// Appends the signed decimal digits of `i`.
pub(crate) fn write_int(i: i64, out: &mut Vec<u8>)
    ensures
        final(out)@ == old(out)@ + int_rep(i as int),
{
    if i < 0 {
        out.push(45);
        let mag: u64 = if i == i64::MIN {
            9223372036854775808u64
        } else {
            (-i) as u64
        };
        proof {
            assert(mag as nat == (-(i as int)) as nat);
        }
        write_dec(mag, out);
        proof {
            assert(out@ =~= old(out)@ + (seq![45u8] + dec_rep((-(i as int)) as nat)));
        }
    } else {
        write_dec(i as u64, out);
    }
}

/// Appends the wire bytes of a bulk string.
pub(crate) fn write_bulk(b: &BulkString, out: &mut Vec<u8>)
    ensures
        final(out)@ == old(out)@ + encode_view(b@),
{
    if b.is_null {
        out.push(36);
        out.push(45);
        out.push(49);
        out.push(13);
        out.push(10);
        proof {
            assert(out@ =~= old(out)@ + encode_view(b@));
        }
    } else {
        out.push(36);
        write_dec(b.data.len() as u64, out);
        out.push(13);
        out.push(10);
        append_bytes(&b.data, out);
        out.push(13);
        out.push(10);
        proof {
            assert(out@ =~= old(out)@ + (seq![36u8] + dec_rep(b.data@.len()) + crlf() + b.data@
                + crlf()));
        }
    }
}

/// Appends the wire bytes of a frame.
#[verifier::rlimit(60)]
pub(crate) fn encode_into(f: &RespFrame, out: &mut Vec<u8>)
    ensures
        final(out)@ == old(out)@ + encode_view(frame_view(*f)),
    decreases *f,
{
    match f {
        RespFrame::SimpleString(d) => {
            out.push(43);
            append_bytes(d, out);
            out.push(13);
            out.push(10);
            proof {
                assert(out@ =~= old(out)@ + (seq![43u8] + d@ + crlf()));
            }
        },
        RespFrame::SimpleError(d) => {
            out.push(45);
            append_bytes(d, out);
            out.push(13);
            out.push(10);
            proof {
                assert(out@ =~= old(out)@ + (seq![45u8] + d@ + crlf()));
            }
        },
        RespFrame::Integer(i) => {
            out.push(58);
            write_int(*i, out);
            out.push(13);
            out.push(10);
            proof {
                assert(out@ =~= old(out)@ + (seq![58u8] + int_rep(*i as int) + crlf()));
            }
        },
        RespFrame::BulkString(b) => {
            write_bulk(b, out);
        },
        RespFrame::Boolean(b) => {
            out.push(35);
            out.push(if *b { 116 } else { 102 });
            out.push(13);
            out.push(10);
            proof {
                assert(out@ =~= old(out)@ + encode_view(FrameView::Bool(*b)));
            }
        },
        RespFrame::Array(a) => {
            if a.is_null {
                out.push(42);
                out.push(45);
                out.push(49);
                out.push(13);
                out.push(10);
                proof {
                    assert(out@ =~= old(out)@ + encode_view(FrameView::NullArr));
                }
            } else {
                out.push(42);
                write_dec(a.elems.len() as u64, out);
                out.push(13);
                out.push(10);
                encode_list_into(&a.elems, 0, out);
                proof {
                    let views = elems_view(a.elems@);
                    assert(a.elems@.skip(0) =~= a.elems@);
                    super::lemma_elems_view_index(a.elems@);
                    assert(out@ =~= old(out)@ + (seq![42u8] + dec_rep(views.len()) + crlf()
                        + encode_views(views)));
                }
            }
        },
        RespFrame::MapFrame(es) => {
            out.push(37);
            write_dec((es.len() / 2) as u64, out);
            out.push(13);
            out.push(10);
            encode_list_into(es, 0, out);
            proof {
                let views = elems_view(es@);
                assert(es@.skip(0) =~= es@);
                super::lemma_elems_view_index(es@);
                assert(out@ =~= old(out)@ + (seq![37u8] + dec_rep((views.len() / 2) as nat)
                    + crlf() + encode_views(views)));
            }
        },
        RespFrame::SetFrame(es) => {
            out.push(126);
            write_dec(es.len() as u64, out);
            out.push(13);
            out.push(10);
            encode_list_into(es, 0, out);
            proof {
                let views = elems_view(es@);
                assert(es@.skip(0) =~= es@);
                super::lemma_elems_view_index(es@);
                assert(out@ =~= old(out)@ + (seq![126u8] + dec_rep(views.len()) + crlf()
                    + encode_views(views)));
            }
        },
    }
}

/// Appends the wire bytes of the frames from index `i` on.
pub(crate) fn encode_list_into(v: &Vec<RespFrame>, i: usize, out: &mut Vec<u8>)
    requires
        i <= v@.len(),
    ensures
        final(out)@ == old(out)@ + encode_views(elems_view(v@.skip(i as int))),
    decreases *v, v@.len() - i + 1,
{
    let ghost t = v@.skip(i as int);
    if i < v.len() {
        proof {
            assert(decreases_to!(*v => v@[i as int]));
        }
        encode_into(&v[i], out);
        encode_list_into(v, i + 1, out);
        proof {
            assert(t[0] == v@[i as int]);
            assert(t.skip(1) =~= v@.skip(i + 1));
            let ev = elems_view(t);
            assert(ev == seq![frame_view(t[0])] + elems_view(t.skip(1)));
            assert(ev[0] == frame_view(v@[i as int]));
            assert(ev.skip(1) =~= elems_view(v@.skip(i + 1)));
            assert(encode_views(ev) == encode_view(ev[0]) + encode_views(ev.skip(1)));
            assert(out@ =~= old(out)@ + encode_views(ev));
        }
    } else {
        proof {
            assert(t =~= Seq::<RespFrame>::empty());
            assert(elems_view(t) =~= Seq::<FrameView>::empty());
            assert(encode_views(elems_view(t)) == Seq::<u8>::empty());
            assert(out@ =~= old(out)@ + encode_views(elems_view(t)));
        }
    }
}

// ---------------------------------------------------------------------------
// Probing: the total span a complete frame would occupy.
// ---------------------------------------------------------------------------

/// Span of one frame starting at `pos`, from headers alone.
#[verifier::rlimit(100)]
#[verifier::spinoff_prover]
pub(crate) fn probe_frame_at(s: &[u8], pos: usize) -> (r: Result<usize, RespError>)
    requires
        pos <= s@.len(),
    ensures
        ({
            let t = s@.skip(pos as int);
            match r {
                Ok(n) => probe_frame(t) == (Scan::Done { value: n as nat, used: n as nat }) && n
                    >= 3,
                Err(e) => (e == RespError::NotComplete <==> probe_frame(t) is Incomplete) && (e
                    == RespError::Malformed <==> probe_frame(t) is Malformed),
            }
        }),
    decreases s@.len() - pos, 1int, 0nat,
{
    let ghost t = s@.skip(pos as int);
    if s.len() == pos {
        return Err(RespError::NotComplete);
    }
    proof {
        assert(t[0] == s@[pos as int]);
        assert(t.skip(1) =~= s@.skip(pos + 1));
    }
    let c = s[pos];
    if c == 43 || c == 45 {
        match parse_line_at(s, pos + 1) {
            Err(e) => Err(e),
            Ok((_, end)) => Ok(end - pos),
        }
    } else if c == 58 {
        match parse_int_at(s, pos + 1) {
            Err(e) => Err(e),
            Ok((_, end)) => Ok(end - pos),
        }
    } else if c == 35 {
        match parse_bool_at(s, pos + 1) {
            Err(e) => Err(e),
            Ok((_, end)) => Ok(end - pos),
        }
    } else if c == 36 {
        let p2 = pos + 1;
        if s.len() == p2 {
            return Err(RespError::NotComplete);
        }
        proof {
            assert(s@.skip(pos + 1)[0] == s@[pos + 1]);
        }
        if s[p2] == 45 {
            match parse_null_at(s, p2) {
                Err(e) => Err(e),
                Ok(end) => Ok(end - pos),
            }
        } else {
            match parse_decimal_at(s, p2) {
                Err(e) => Err(e),
                Ok((v, end1)) => {
                    let u = end1 - p2;
                    if v > (usize::MAX - 3) as u64 || u > usize::MAX - 3 - (v as usize) {
                        return Err(RespError::Malformed);
                    }
                    let n = v as usize;
                    Ok(1 + u + n + 2)
                },
            }
        }
    } else if c == 42 {
        let p2 = pos + 1;
        if s.len() == p2 {
            return Err(RespError::NotComplete);
        }
        proof {
            assert(s@.skip(pos + 1)[0] == s@[pos + 1]);
        }
        if s[p2] == 45 {
            match parse_null_at(s, p2) {
                Err(e) => Err(e),
                Ok(end) => Ok(end - pos),
            }
        } else {
            match parse_decimal_at(s, p2) {
                Err(e) => Err(e),
                Ok((v, end1)) => {
                    if v > usize::MAX as u64 {
                        return Err(RespError::Malformed);
                    }
                    let n = v as usize;
                    let u = end1 - p2;
                    proof {
                        assert(s@.skip(pos + 1).skip(u as int) =~= s@.skip(end1 as int));
                    }
                    match probe_elems_at(s, end1, n) {
                        Err(e) => Err(e),
                        Ok(total) => {
                            if total > usize::MAX - 1 || u > usize::MAX - 1 - total {
                                return Err(RespError::Malformed);
                            }
                            Ok(1 + u + total)
                        },
                    }
                },
            }
        }
    } else if c == 126 {
        probe_setframe_at(s, pos)
    } else if c == 37 {
        probe_mapframe_at(s, pos)
    } else {
        Err(RespError::Malformed)
    }
}

/// Span of a set frame, starting at the `~` prefix at `pos`.
#[verifier::rlimit(100)]
#[verifier::spinoff_prover]
pub(crate) fn probe_setframe_at(s: &[u8], pos: usize) -> (r: Result<usize, RespError>)
    requires
        pos < s@.len(),
        s@[pos as int] == 126,
    ensures
        ({
            let t = s@.skip(pos as int);
            match r {
                Ok(n) => probe_frame(t) == (Scan::Done { value: n as nat, used: n as nat }) && n
                    >= 3,
                Err(e) => (e == RespError::NotComplete <==> probe_frame(t) is Incomplete) && (e
                    == RespError::Malformed <==> probe_frame(t) is Malformed),
            }
        }),
    decreases s@.len() - pos, 0int, 0nat,
{
    let ghost t = s@.skip(pos as int);
    proof {
        assert(t[0] == s@[pos as int]);
        assert(t.skip(1) =~= s@.skip(pos + 1));
    }
    let _slen = s.len();
    let p2 = pos + 1;
    match parse_decimal_at(s, p2) {
        Err(e) => Err(e),
        Ok((v, end1)) => {
            if v > usize::MAX as u64 {
                return Err(RespError::Malformed);
            }
            let n = v as usize;
            let u = end1 - p2;
            proof {
                assert(s@.skip(pos + 1).skip(u as int) =~= s@.skip(end1 as int));
            }
            match probe_elems_at(s, end1, n) {
                Err(e) => Err(e),
                Ok(total) => {
                    if total > usize::MAX - 1 || u > usize::MAX - 1 - total {
                        return Err(RespError::Malformed);
                    }
                    Ok(1 + u + total)
                },
            }
        },
    }
}

/// Span of a map frame, starting at the `%` prefix at `pos`.
#[verifier::rlimit(100)]
#[verifier::spinoff_prover]
pub(crate) fn probe_mapframe_at(s: &[u8], pos: usize) -> (r: Result<usize, RespError>)
    requires
        pos < s@.len(),
        s@[pos as int] == 37,
    ensures
        ({
            let t = s@.skip(pos as int);
            match r {
                Ok(n) => probe_frame(t) == (Scan::Done { value: n as nat, used: n as nat }) && n
                    >= 3,
                Err(e) => (e == RespError::NotComplete <==> probe_frame(t) is Incomplete) && (e
                    == RespError::Malformed <==> probe_frame(t) is Malformed),
            }
        }),
    decreases s@.len() - pos, 0int, 0nat,
{
    let ghost t = s@.skip(pos as int);
    proof {
        assert(t[0] == s@[pos as int]);
        assert(t.skip(1) =~= s@.skip(pos + 1));
    }
    let _slen = s.len();
    let p2 = pos + 1;
    match parse_decimal_at(s, p2) {
        Err(e) => Err(e),
        Ok((v, end1)) => {
            if v > (usize::MAX / 2) as u64 {
                return Err(RespError::Malformed);
            }
            let n = v as usize;
            let u = end1 - p2;
            proof {
                assert(s@.skip(pos + 1).skip(u as int) =~= s@.skip(end1 as int));
            }
            match probe_elems_at(s, end1, 2 * n) {
                Err(e) => Err(e),
                Ok(total) => {
                    if total > usize::MAX - 1 || u > usize::MAX - 1 - total {
                        return Err(RespError::Malformed);
                    }
                    Ok(1 + u + total)
                },
            }
        },
    }
}

/// Combined span of `count` frames starting at `pos`.
pub(crate) fn probe_elems_at(s: &[u8], pos: usize, count: usize) -> (r: Result<usize, RespError>)
    requires
        pos <= s@.len(),
    ensures
        ({
            let t = s@.skip(pos as int);
            match r {
                Ok(n) => probe_elems(t, count as nat) == (Scan::Done {
                    value: n as nat,
                    used: n as nat,
                }),
                Err(e) => (e == RespError::NotComplete <==> probe_elems(t, count as nat)
                    is Incomplete) && (e == RespError::Malformed <==> probe_elems(t, count as nat)
                    is Malformed),
            }
        }),
    decreases s@.len() - pos, 2int, count as nat,
{
    let ghost t = s@.skip(pos as int);
    if count == 0 {
        return Ok(0);
    }
    match probe_frame_at(s, pos) {
        Err(e) => Err(e),
        Ok(t1) => {
            if t1 > s.len() - pos {
                return Err(RespError::NotComplete);
            }
            proof {
                assert(t.skip(t1 as int) =~= s@.skip(pos + t1));
            }
            match probe_elems_at(s, pos + t1, count - 1) {
                Err(e) => Err(e),
                Ok(t2) => {
                    if t1 > usize::MAX - t2 {
                        return Err(RespError::Malformed);
                    }
                    Ok(t1 + t2)
                },
            }
        },
    }
}

// ---------------------------------------------------------------------------
// The public codec interface on whole frames.
// ---------------------------------------------------------------------------

impl RespFrame {
    /// Exact wire bytes of this frame.
    pub fn encode(self) -> (r: Vec<u8>)
        ensures
            r@ == encode_view(self@),
    {
        let mut out: Vec<u8> = Vec::new();
        encode_into(&self, &mut out);
        proof {
            assert(out@ =~= encode_view(frame_view(self)));
        }
        out
    }

    /// Decode one frame from the front of `buf`. On success exactly the
    /// frame's bytes are consumed; on either error the buffer is untouched,
    /// and `NotComplete` means the identical call succeeds once enough bytes
    /// arrive.
    pub fn decode(buf: &mut bytes::BytesMut) -> (r: Result<RespFrame, RespError>)
        ensures
            ({
                let pre = bytes_view(*old(buf));
                match r {
                    Ok(f) => parse_frame(pre) matches Scan::Done { value, used } && value == f@
                        && used <= pre.len() && bytes_view(*final(buf)) == pre.skip(used as int),
                    Err(e) => bytes_view(*final(buf)) == pre && (e == RespError::NotComplete
                        <==> parse_frame(pre) is Incomplete) && (e == RespError::Malformed
                        <==> parse_frame(pre) is Malformed),
                }
            }),
    {
        let r = {
            let s = buf_bytes(buf);
            proof {
                assert(s@.skip(0) =~= s@);
            }
            parse_frame_at(s, 0)
        };
        match r {
            Ok((f, end)) => {
                buf_advance(buf, end);
                Ok(f)
            },
            Err(e) => Err(e),
        }
    }

    /// The total byte span one complete frame at the front of `buf` would
    /// occupy, judged from length headers, so a caller can wait for exactly
    /// the missing bytes before decoding.
    pub fn expect_length(buf: &[u8]) -> (r: Result<usize, RespError>)
        ensures
            match r {
                Ok(n) => probe_frame(buf@) == (Scan::Done { value: n as nat, used: n as nat }),
                Err(e) => (e == RespError::NotComplete <==> probe_frame(buf@) is Incomplete) && (e
                    == RespError::Malformed <==> probe_frame(buf@) is Malformed),
            },
    {
        proof {
            assert(buf@.skip(0) =~= buf@);
        }
        probe_frame_at(buf, 0)
    }
}

impl RespArray {
    /// Exact wire bytes of this array frame.
    pub fn encode(self) -> (r: Vec<u8>)
        ensures
            r@ == encode_view(self@),
    {
        RespFrame::Array(self).encode()
    }

    /// Decode one array frame from the front of `buf`. On success exactly
    /// the frame's bytes are consumed, and a null array comes back with no
    /// elements; on either error the buffer is untouched. A buffer that does
    /// not begin with the `*` prefix is `Malformed` at once, however short:
    /// no further bytes can turn it into an array, so the error is
    /// non-retryable.
    pub fn decode(buf: &mut bytes::BytesMut) -> (r: Result<RespArray, RespError>)
        ensures
            ({
                let pre = bytes_view(*old(buf));
                match r {
                    Ok(a) => parse_frame(pre) matches Scan::Done { value, used } && value == a@
                        && used <= pre.len() && bytes_view(*final(buf)) == pre.skip(used as int)
                        && (a.is_null ==> a.elems@.len() == 0),
                    Err(e) => bytes_view(*final(buf)) == pre && (e == RespError::NotComplete <==> (
                    pre.len() == 0 || (pre[0] == 42 && parse_frame(pre) is Incomplete))) && (e
                        == RespError::Malformed <==> ((pre.len() > 0 && pre[0] != 42)
                        || parse_frame(pre) is Malformed)),
                }
            }),
    {
        let r = {
            let s = buf_bytes(buf);
            proof {
                assert(s@.skip(0) =~= s@);
            }
            if s.len() > 0 && s[0] != 42 {
                return Err(RespError::Malformed);
            }
            parse_frame_at(s, 0)
        };
        match r {
            Ok((f, end)) => {
                match f {
                    RespFrame::Array(a) => {
                        buf_advance(buf, end);
                        Ok(a)
                    },
                    _ => {
                        proof {
                            // under the `*` prefix the parser only ever
                            // yields an array
                            let pre = bytes_view(*old(buf));
                            assert(parse_frame(pre) matches Scan::Done { value, used } && (value
                                is Arr || value is NullArr));
                            assert(false);
                        }
                        Err(RespError::Malformed)
                    },
                }
            },
            Err(e) => Err(e),
        }
    }

    /// As `RespFrame::expect_length`, for a buffer whose frame must be an
    /// array. A buffer that does not begin with the `*` prefix is
    /// `Malformed` at once, however short.
    pub fn expect_length(buf: &[u8]) -> (r: Result<usize, RespError>)
        ensures
            match r {
                Ok(n) => probe_frame(buf@) == (Scan::Done { value: n as nat, used: n as nat })
                    && buf@.len() > 0 && buf@[0] == 42,
                Err(e) => (e == RespError::NotComplete <==> (buf@.len() == 0 || (buf@[0] == 42
                    && probe_frame(buf@) is Incomplete))) && (e == RespError::Malformed <==> ((
                buf@.len() > 0 && buf@[0] != 42) || probe_frame(buf@) is Malformed)),
            },
    {
        if buf.len() > 0 && buf[0] != 42 {
            return Err(RespError::Malformed);
        }
        proof {
            assert(buf@.skip(0) =~= buf@);
        }
        probe_frame_at(buf, 0)
    }
}

} // verus!
