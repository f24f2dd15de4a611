//! The frame model: a closed set of protocol value variants with a uniform
//! encode/decode contract, plus the mathematical model of the wire grammar
//! that the contracts are stated over.

use vstd::prelude::*;

pub mod buf;
pub mod bulk_string;
pub mod codec;
pub mod laws;

pub use bulk_string::BulkString;

verus! {

broadcast use vstd::seq::group_seq_axioms, vstd::std_specs::vec::group_vec_axioms;

/// Codec error taxonomy: `NotComplete` means the buffer does not yet hold a
/// whole frame (retry after more bytes arrive, the buffer is untouched);
/// `Malformed` means the bytes do not match the grammar and the stream is
/// unrecoverable.
#[derive(Debug, Clone, Copy, PartialEq, Eq, Structural)]
pub enum RespError {
    NotComplete,
    Malformed,
}

/// An array frame: a counted sequence of frames, or the distinguished null
/// array.
#[derive(Debug, PartialEq, Eq)]
pub struct RespArray {
    pub elems: Vec<RespFrame>,
    pub is_null: bool,
}

/// One decoded protocol value.
#[derive(Debug, PartialEq, Eq)]
pub enum RespFrame {
    SimpleString(Vec<u8>),
    SimpleError(Vec<u8>),
    Integer(i64),
    BulkString(BulkString),
    Array(RespArray),
    Boolean(bool),
    MapFrame(Vec<RespFrame>),
    SetFrame(Vec<RespFrame>),
}

/// The mathematical value of a frame. Null forms are their own variants, so
/// a view carries no redundant payload next to a null marker.
pub enum FrameView {
    Simple(Seq<u8>),
    Error(Seq<u8>),
    Int(i64),
    Bulk(Seq<u8>),
    NullBulk,
    Arr(Seq<FrameView>),
    NullArr,
    Bool(bool),
    Pairs(Seq<FrameView>),
    Members(Seq<FrameView>),
}

pub open spec fn frame_view(f: RespFrame) -> FrameView
    decreases f,
{
    match f {
        RespFrame::SimpleString(d) => FrameView::Simple(d@),
        RespFrame::SimpleError(d) => FrameView::Error(d@),
        RespFrame::Integer(i) => FrameView::Int(i),
        RespFrame::BulkString(b) => b@,
        RespFrame::Array(a) => if a.is_null {
            FrameView::NullArr
        } else {
            FrameView::Arr(elems_view(a.elems@))
        },
        RespFrame::Boolean(b) => FrameView::Bool(b),
        RespFrame::MapFrame(es) => FrameView::Pairs(elems_view(es@)),
        RespFrame::SetFrame(es) => FrameView::Members(elems_view(es@)),
    }
}

pub open spec fn elems_view(s: Seq<RespFrame>) -> Seq<FrameView>
    decreases s,
{
    if s.len() == 0 {
        Seq::empty()
    } else {
        seq![frame_view(s[0])] + elems_view(s.skip(1))
    }
}

impl View for RespFrame {
    type V = FrameView;

    open spec fn view(&self) -> FrameView {
        frame_view(*self)
    }
}

impl View for RespArray {
    type V = FrameView;

    open spec fn view(&self) -> FrameView {
        if self.is_null {
            FrameView::NullArr
        } else {
            FrameView::Arr(elems_view(self.elems@))
        }
    }
}

/// `elems_view` is the pointwise view, one entry per frame.
pub proof fn lemma_elems_view_index(s: Seq<RespFrame>)
    ensures
        elems_view(s).len() == s.len(),
        forall|i: int| 0 <= i < s.len() ==> elems_view(s)[i] == frame_view(#[trigger] s[i]),
    decreases s,
{
    if s.len() > 0 {
        lemma_elems_view_index(s.skip(1));
        assert forall|i: int| 0 <= i < s.len() implies elems_view(s)[i] == frame_view(
            #[trigger] s[i],
        ) by {
            if i > 0 {
                assert(s.skip(1)[i - 1] == s[i]);
                assert(elems_view(s)[i] == elems_view(s.skip(1))[i - 1]);
            }
        }
    }
}

fn clone_bytes(v: &Vec<u8>) -> (r: Vec<u8>)
    ensures
        r@ == v@,
{
    let mut out: Vec<u8> = Vec::new();
    let mut i: usize = 0;
    while i < v.len()
        invariant
            i <= v@.len(),
            out@ == v@.take(i as int),
        decreases v@.len() - i,
    {
        out.push(v[i]);
        proof {
            assert(out@ =~= v@.take(i + 1));
        }
        i = i + 1;
    }
    proof {
        assert(out@ =~= v@);
    }
    out
}

fn clone_frame(f: &RespFrame) -> (r: RespFrame)
    ensures
        frame_view(r) == frame_view(*f),
    decreases *f,
{
    match f {
        RespFrame::SimpleString(d) => RespFrame::SimpleString(clone_bytes(d)),
        RespFrame::SimpleError(d) => RespFrame::SimpleError(clone_bytes(d)),
        RespFrame::Integer(i) => RespFrame::Integer(*i),
        RespFrame::BulkString(b) => RespFrame::BulkString(
            BulkString { data: clone_bytes(&b.data), is_null: b.is_null },
        ),
        RespFrame::Array(a) => RespFrame::Array(
            RespArray { elems: clone_frames(&a.elems), is_null: a.is_null },
        ),
        RespFrame::Boolean(b) => RespFrame::Boolean(*b),
        RespFrame::MapFrame(es) => RespFrame::MapFrame(clone_frames(es)),
        RespFrame::SetFrame(es) => RespFrame::SetFrame(clone_frames(es)),
    }
}

fn clone_frames(v: &Vec<RespFrame>) -> (r: Vec<RespFrame>)
    ensures
        r@.len() == v@.len(),
        elems_view(r@) == elems_view(v@),
    decreases *v,
{
    let mut out: Vec<RespFrame> = Vec::new();
    let mut i: usize = 0;
    while i < v.len()
        invariant
            i <= v@.len(),
            out@.len() == i,
            forall|j: int| 0 <= j < i ==> frame_view(#[trigger] out@[j]) == frame_view(v@[j]),
        decreases v@.len() - i,
    {
        let c = clone_frame(&v[i]);
        out.push(c);
        i = i + 1;
    }
    proof {
        lemma_elems_view_index(out@);
        lemma_elems_view_index(v@);
        assert forall|j: int| 0 <= j < v@.len() implies elems_view(out@)[j] == elems_view(v@)[j] by {
            assert(frame_view(out@[j]) == frame_view(v@[j]));
        }
        assert(elems_view(out@) =~= elems_view(v@));
    }
    out
}

impl Clone for RespFrame {
    /// A clone denotes the same frame value.
    fn clone(&self) -> (r: Self)
        ensures
            frame_view(r) == frame_view(*self),
    {
        clone_frame(self)
    }
}

impl Clone for RespArray {
    /// A clone denotes the same array value, null flag and element views
    /// alike.
    fn clone(&self) -> (r: Self)
        ensures
            r.is_null == self.is_null,
            elems_view(r.elems@) == elems_view(self.elems@),
            r@ == self@,
    {
        RespArray { elems: clone_frames(&self.elems), is_null: self.is_null }
    }
}

// ---------------------------------------------------------------------------
// The wire grammar, spec level.
// ---------------------------------------------------------------------------

pub open spec fn crlf() -> Seq<u8> {
    seq![13u8, 10u8]
}

pub open spec fn is_digit(b: u8) -> bool {
    48 <= b && b <= 57
}

/// A byte that may stand inside a simple string or simple error.
pub open spec fn is_line_byte(b: u8) -> bool {
    b != 13 && b != 10
}

/// Canonical decimal digits of `n`, most significant first.
pub open spec fn dec_rep(n: nat) -> Seq<u8>
    decreases n,
{
    if n < 10 {
        seq![(48 + n) as u8]
    } else {
        dec_rep(n / 10).push((48 + n % 10) as u8)
    }
}

/// Numeric value of a digit string.
pub open spec fn dec_val(s: Seq<u8>) -> int
    decreases s.len(),
{
    if s.len() == 0 {
        0
    } else {
        dec_val(s.drop_last()) * 10 + s.last() - 48
    }
}

pub open spec fn all_digits(s: Seq<u8>) -> bool {
    forall|i: int| 0 <= i < s.len() ==> is_digit(#[trigger] s[i])
}

/// Decimal digits of `i`, with a leading minus sign when negative.
pub open spec fn int_rep(i: int) -> Seq<u8> {
    if i < 0 {
        seq![45u8] + dec_rep((-i) as nat)
    } else {
        dec_rep(i as nat)
    }
}

/// Exact wire bytes of a frame value.
pub open spec fn encode_view(v: FrameView) -> Seq<u8>
    decreases v,
{
    match v {
        FrameView::Simple(d) => seq![43u8] + d + crlf(),
        FrameView::Error(d) => seq![45u8] + d + crlf(),
        FrameView::Int(i) => seq![58u8] + int_rep(i as int) + crlf(),
        FrameView::Bulk(d) => seq![36u8] + dec_rep(d.len()) + crlf() + d + crlf(),
        FrameView::NullBulk => seq![36u8, 45u8, 49u8, 13u8, 10u8],
        FrameView::Arr(es) => seq![42u8] + dec_rep(es.len()) + crlf() + encode_views(es),
        FrameView::NullArr => seq![42u8, 45u8, 49u8, 13u8, 10u8],
        FrameView::Bool(b) => seq![35u8, if b { 116u8 } else { 102u8 }, 13u8, 10u8],
        FrameView::Pairs(es) => seq![37u8] + dec_rep((es.len() / 2) as nat) + crlf()
            + encode_views(es),
        FrameView::Members(es) => seq![126u8] + dec_rep(es.len()) + crlf() + encode_views(es),
    }
}

pub open spec fn encode_views(es: Seq<FrameView>) -> Seq<u8>
    decreases es,
{
    if es.len() == 0 {
        Seq::empty()
    } else {
        encode_view(es[0]) + encode_views(es.skip(1))
    }
}

pub open spec fn clean_text(d: Seq<u8>) -> bool {
    forall|i: int| 0 <= i < d.len() ==> is_line_byte(#[trigger] d[i])
}

/// A frame value the wire format can represent: simple strings and errors
/// hold no delimiter bytes, and lengths fit a machine word.
pub open spec fn valid_view(v: FrameView) -> bool
    decreases v,
{
    match v {
        FrameView::Simple(d) => clean_text(d),
        FrameView::Error(d) => clean_text(d),
        FrameView::Int(_) => true,
        FrameView::Bulk(d) => d.len() <= usize::MAX as nat,
        FrameView::NullBulk => true,
        FrameView::Arr(es) => es.len() <= usize::MAX as nat && valid_views(es),
        FrameView::NullArr => true,
        FrameView::Bool(_) => true,
        FrameView::Pairs(es) => es.len() % 2 == 0 && es.len() <= usize::MAX as nat && valid_views(
            es,
        ),
        FrameView::Members(es) => es.len() <= usize::MAX as nat && valid_views(es),
    }
}

pub open spec fn valid_views(es: Seq<FrameView>) -> bool
    decreases es,
{
    if es.len() == 0 {
        true
    } else {
        valid_view(es[0]) && valid_views(es.skip(1))
    }
}

// ---------------------------------------------------------------------------
// The spec-level incremental parser. Decoding a buffer either yields a value
// together with the exact number of bytes it occupies, or reports that the
// buffer is a proper prefix of some frame (`Incomplete`), or that no
// extension of the buffer matches the grammar (`Malformed`).
// ---------------------------------------------------------------------------

/// Outcome of scanning a byte sequence for one grammar production.
pub enum Scan<T> {
    Incomplete,
    Malformed,
    Done { value: T, used: nat },
}

/// Length of the leading run of decimal digits.
pub open spec fn digit_run(s: Seq<u8>) -> nat
    decreases s.len(),
{
    if s.len() == 0 || !is_digit(s[0]) {
        0
    } else {
        1 + digit_run(s.skip(1))
    }
}

/// Length of the leading run of bytes allowed inside a simple string.
pub open spec fn line_run(s: Seq<u8>) -> nat
    decreases s.len(),
{
    if s.len() == 0 || !is_line_byte(s[0]) {
        0
    } else {
        1 + line_run(s.skip(1))
    }
}

/// A canonical ASCII decimal number followed by CRLF: at least one digit and
/// no leading zero.
pub open spec fn parse_decimal(s: Seq<u8>) -> Scan<nat> {
    let k = digit_run(s) as int;
    if k == s.len() {
        Scan::Incomplete
    } else if k == 0 {
        Scan::Malformed
    } else if s[k] != 13 {
        Scan::Malformed
    } else if k + 1 == s.len() {
        Scan::Incomplete
    } else if s[k + 1] != 10 {
        Scan::Malformed
    } else if k > 1 && s[0] == 48 {
        Scan::Malformed
    } else {
        Scan::Done { value: dec_val(s.take(k)) as nat, used: (k + 2) as nat }
    }
}

/// A delimiter-free line followed by CRLF.
pub open spec fn parse_line(s: Seq<u8>) -> Scan<Seq<u8>> {
    let k = line_run(s) as int;
    if k == s.len() {
        Scan::Incomplete
    } else if s[k] == 10 {
        Scan::Malformed
    } else if k + 1 == s.len() {
        Scan::Incomplete
    } else if s[k + 1] != 10 {
        Scan::Malformed
    } else {
        Scan::Done { value: s.take(k), used: (k + 2) as nat }
    }
}

/// The fixed null marker `-1` CRLF that follows a `$` or `*` prefix.
/// Callers enter here only when the first byte is the minus sign.
pub open spec fn parse_null_marker(s: Seq<u8>) -> Scan<bool> {
    if s.len() <= 1 {
        Scan::Incomplete
    } else if s[1] != 49 {
        Scan::Malformed
    } else if s.len() == 2 {
        Scan::Incomplete
    } else if s[2] != 13 {
        Scan::Malformed
    } else if s.len() == 3 {
        Scan::Incomplete
    } else if s[3] != 10 {
        Scan::Malformed
    } else {
        Scan::Done { value: true, used: 4 }
    }
}

/// Body of a boolean frame: `t` or `f`, then CRLF.
pub open spec fn parse_bool(s: Seq<u8>) -> Scan<bool> {
    if s.len() == 0 {
        Scan::Incomplete
    } else if s[0] != 116 && s[0] != 102 {
        Scan::Malformed
    } else if s.len() == 1 {
        Scan::Incomplete
    } else if s[1] != 13 {
        Scan::Malformed
    } else if s.len() == 2 {
        Scan::Incomplete
    } else if s[2] != 10 {
        Scan::Malformed
    } else {
        Scan::Done { value: s[0] == 116, used: 3 }
    }
}

/// Body of a bulk string frame, after the `$` prefix: either the null
/// marker, or a length, the payload, and a closing CRLF.
pub open spec fn parse_bulk(s: Seq<u8>) -> Scan<FrameView> {
    if s.len() == 0 {
        Scan::Incomplete
    } else if s[0] == 45 {
        match parse_null_marker(s) {
            Scan::Incomplete => Scan::Incomplete,
            Scan::Malformed => Scan::Malformed,
            Scan::Done { value: _, used } => Scan::Done { value: FrameView::NullBulk, used },
        }
    } else {
        match parse_decimal(s) {
            Scan::Incomplete => Scan::Incomplete,
            Scan::Malformed => Scan::Malformed,
            Scan::Done { value: n, used: u } => {
                if n > usize::MAX as nat {
                    Scan::Malformed
                } else if s.len() < u + n + 2 {
                    Scan::Incomplete
                } else if s[(u + n) as int] != 13 {
                    Scan::Malformed
                } else if s[(u + n) as int + 1] != 10 {
                    Scan::Malformed
                } else {
                    Scan::Done {
                        value: FrameView::Bulk(s.subrange(u as int, (u + n) as int)),
                        used: u + n + 2,
                    }
                }
            },
        }
    }
}

/// Body of an integer frame, after the `:` prefix: an optional minus sign
/// and a canonical decimal within the signed 64-bit range. A signed zero is
/// not canonical.
pub open spec fn parse_int(s: Seq<u8>) -> Scan<FrameView> {
    if s.len() == 0 {
        Scan::Incomplete
    } else if s[0] == 45 {
        match parse_decimal(s.skip(1)) {
            Scan::Incomplete => Scan::Incomplete,
            Scan::Malformed => Scan::Malformed,
            Scan::Done { value: n, used: u } => {
                if n == 0 || n > 0x8000_0000_0000_0000nat {
                    Scan::Malformed
                } else {
                    Scan::Done { value: FrameView::Int((-(n as int)) as i64), used: u + 1 }
                }
            },
        }
    } else {
        match parse_decimal(s) {
            Scan::Incomplete => Scan::Incomplete,
            Scan::Malformed => Scan::Malformed,
            Scan::Done { value: n, used: u } => {
                if n > 0x7fff_ffff_ffff_ffffnat {
                    Scan::Malformed
                } else {
                    Scan::Done { value: FrameView::Int(n as i64), used: u }
                }
            },
        }
    }
}

/// One whole frame from the start of `s`.
pub open spec fn parse_frame(s: Seq<u8>) -> Scan<FrameView>
    decreases s.len(), 0int, 0nat,
{
    if s.len() == 0 {
        Scan::Incomplete
    } else {
        let rest = s.skip(1);
        if s[0] == 43 {
            match parse_line(rest) {
                Scan::Incomplete => Scan::Incomplete,
                Scan::Malformed => Scan::Malformed,
                Scan::Done { value: d, used } => Scan::Done {
                    value: FrameView::Simple(d),
                    used: used + 1,
                },
            }
        } else if s[0] == 45 {
            match parse_line(rest) {
                Scan::Incomplete => Scan::Incomplete,
                Scan::Malformed => Scan::Malformed,
                Scan::Done { value: d, used } => Scan::Done {
                    value: FrameView::Error(d),
                    used: used + 1,
                },
            }
        } else if s[0] == 58 {
            match parse_int(rest) {
                Scan::Incomplete => Scan::Incomplete,
                Scan::Malformed => Scan::Malformed,
                Scan::Done { value: v, used } => Scan::Done { value: v, used: used + 1 },
            }
        } else if s[0] == 36 {
            match parse_bulk(rest) {
                Scan::Incomplete => Scan::Incomplete,
                Scan::Malformed => Scan::Malformed,
                Scan::Done { value: v, used } => Scan::Done { value: v, used: used + 1 },
            }
        } else if s[0] == 35 {
            match parse_bool(rest) {
                Scan::Incomplete => Scan::Incomplete,
                Scan::Malformed => Scan::Malformed,
                Scan::Done { value: b, used } => Scan::Done {
                    value: FrameView::Bool(b),
                    used: used + 1,
                },
            }
        } else if s[0] == 42 {
            if rest.len() == 0 {
                Scan::Incomplete
            } else if rest[0] == 45 {
                match parse_null_marker(rest) {
                    Scan::Incomplete => Scan::Incomplete,
                    Scan::Malformed => Scan::Malformed,
                    Scan::Done { value: _, used } => Scan::Done {
                        value: FrameView::NullArr,
                        used: used + 1,
                    },
                }
            } else {
                match parse_decimal(rest) {
                    Scan::Incomplete => Scan::Incomplete,
                    Scan::Malformed => Scan::Malformed,
                    Scan::Done { value: n, used: u } => {
                        if n > usize::MAX as nat {
                            Scan::Malformed
                        } else if u > rest.len() {
                            // a parsed number never spans past the buffer;
                            // this arm is unreachable and only bounds the
                            // recursion measure
                            Scan::Malformed
                        } else {
                            match parse_elems(rest.skip(u as int), n) {
                                Scan::Incomplete => Scan::Incomplete,
                                Scan::Malformed => Scan::Malformed,
                                Scan::Done { value: es, used: u2 } => Scan::Done {
                                    value: FrameView::Arr(es),
                                    used: 1 + u + u2,
                                },
                            }
                        }
                    },
                }
            }
        } else if s[0] == 126 {
            // set frame: a member count, then that many frames
            match parse_decimal(rest) {
                Scan::Incomplete => Scan::Incomplete,
                Scan::Malformed => Scan::Malformed,
                Scan::Done { value: n, used: u } => {
                    if n > usize::MAX as nat {
                        Scan::Malformed
                    } else if u > rest.len() {
                        // unreachable; bounds the recursion measure
                        Scan::Malformed
                    } else {
                        match parse_elems(rest.skip(u as int), n) {
                            Scan::Incomplete => Scan::Incomplete,
                            Scan::Malformed => Scan::Malformed,
                            Scan::Done { value: es, used: u2 } => Scan::Done {
                                value: FrameView::Members(es),
                                used: 1 + u + u2,
                            },
                        }
                    }
                },
            }
        } else if s[0] == 37 {
            // map frame: a pair count, then field and value frames alternating
            match parse_decimal(rest) {
                Scan::Incomplete => Scan::Incomplete,
                Scan::Malformed => Scan::Malformed,
                Scan::Done { value: n, used: u } => {
                    if n > usize::MAX as nat / 2 {
                        Scan::Malformed
                    } else if u > rest.len() {
                        // unreachable; bounds the recursion measure
                        Scan::Malformed
                    } else {
                        match parse_elems(rest.skip(u as int), 2 * n) {
                            Scan::Incomplete => Scan::Incomplete,
                            Scan::Malformed => Scan::Malformed,
                            Scan::Done { value: es, used: u2 } => Scan::Done {
                                value: FrameView::Pairs(es),
                                used: 1 + u + u2,
                            },
                        }
                    }
                },
            }
        } else {
            Scan::Malformed
        }
    }
}

/// The total byte span one complete frame at the start of `s` would occupy,
/// judged from the buffer's prefix alone: a bulk string's payload is counted
/// from its declared length without having to be present. The span is both
/// the value and the `used` count of the outcome. A span that cannot fit a
/// machine word is `Malformed`.
pub open spec fn probe_frame(s: Seq<u8>) -> Scan<nat>
    decreases s.len(), 0int, 0nat,
{
    if s.len() == 0 {
        Scan::Incomplete
    } else {
        let rest = s.skip(1);
        if s[0] == 43 || s[0] == 45 {
            match parse_line(rest) {
                Scan::Incomplete => Scan::Incomplete,
                Scan::Malformed => Scan::Malformed,
                Scan::Done { value: _, used } => Scan::Done { value: used + 1, used: used + 1 },
            }
        } else if s[0] == 58 {
            match parse_int(rest) {
                Scan::Incomplete => Scan::Incomplete,
                Scan::Malformed => Scan::Malformed,
                Scan::Done { value: _, used } => Scan::Done { value: used + 1, used: used + 1 },
            }
        } else if s[0] == 35 {
            match parse_bool(rest) {
                Scan::Incomplete => Scan::Incomplete,
                Scan::Malformed => Scan::Malformed,
                Scan::Done { value: _, used } => Scan::Done { value: used + 1, used: used + 1 },
            }
        } else if s[0] == 36 {
            if rest.len() == 0 {
                Scan::Incomplete
            } else if rest[0] == 45 {
                match parse_null_marker(rest) {
                    Scan::Incomplete => Scan::Incomplete,
                    Scan::Malformed => Scan::Malformed,
                    Scan::Done { value: _, used } => Scan::Done {
                        value: used + 1,
                        used: used + 1,
                    },
                }
            } else {
                match parse_decimal(rest) {
                    Scan::Incomplete => Scan::Incomplete,
                    Scan::Malformed => Scan::Malformed,
                    Scan::Done { value: n, used: u } => {
                        if 1 + u + n + 2 > usize::MAX as nat {
                            Scan::Malformed
                        } else {
                            Scan::Done { value: 1 + u + n + 2, used: 1 + u + n + 2 }
                        }
                    },
                }
            }
        } else if s[0] == 42 {
            if rest.len() == 0 {
                Scan::Incomplete
            } else if rest[0] == 45 {
                match parse_null_marker(rest) {
                    Scan::Incomplete => Scan::Incomplete,
                    Scan::Malformed => Scan::Malformed,
                    Scan::Done { value: _, used } => Scan::Done {
                        value: used + 1,
                        used: used + 1,
                    },
                }
            } else {
                match parse_decimal(rest) {
                    Scan::Incomplete => Scan::Incomplete,
                    Scan::Malformed => Scan::Malformed,
                    Scan::Done { value: n, used: u } => {
                        if n > usize::MAX as nat {
                            Scan::Malformed
                        } else if u > rest.len() {
                            // unreachable; bounds the recursion measure
                            Scan::Malformed
                        } else {
                            match probe_elems(rest.skip(u as int), n) {
                                Scan::Incomplete => Scan::Incomplete,
                                Scan::Malformed => Scan::Malformed,
                                Scan::Done { value: t, used: _ } => {
                                    if 1 + u + t > usize::MAX as nat {
                                        Scan::Malformed
                                    } else {
                                        Scan::Done { value: 1 + u + t, used: 1 + u + t }
                                    }
                                },
                            }
                        }
                    },
                }
            }
        } else if s[0] == 126 {
            match parse_decimal(rest) {
                Scan::Incomplete => Scan::Incomplete,
                Scan::Malformed => Scan::Malformed,
                Scan::Done { value: n, used: u } => {
                    if n > usize::MAX as nat {
                        Scan::Malformed
                    } else if u > rest.len() {
                        // unreachable; bounds the recursion measure
                        Scan::Malformed
                    } else {
                        match probe_elems(rest.skip(u as int), n) {
                            Scan::Incomplete => Scan::Incomplete,
                            Scan::Malformed => Scan::Malformed,
                            Scan::Done { value: t, used: _ } => {
                                if 1 + u + t > usize::MAX as nat {
                                    Scan::Malformed
                                } else {
                                    Scan::Done { value: 1 + u + t, used: 1 + u + t }
                                }
                            },
                        }
                    }
                },
            }
        } else if s[0] == 37 {
            match parse_decimal(rest) {
                Scan::Incomplete => Scan::Incomplete,
                Scan::Malformed => Scan::Malformed,
                Scan::Done { value: n, used: u } => {
                    if n > usize::MAX as nat / 2 {
                        Scan::Malformed
                    } else if u > rest.len() {
                        // unreachable; bounds the recursion measure
                        Scan::Malformed
                    } else {
                        match probe_elems(rest.skip(u as int), 2 * n) {
                            Scan::Incomplete => Scan::Incomplete,
                            Scan::Malformed => Scan::Malformed,
                            Scan::Done { value: t, used: _ } => {
                                if 1 + u + t > usize::MAX as nat {
                                    Scan::Malformed
                                } else {
                                    Scan::Done { value: 1 + u + t, used: 1 + u + t }
                                }
                            },
                        }
                    }
                },
            }
        } else {
            Scan::Malformed
        }
    }
}

/// Combined span of `count` consecutive frames. An element whose span runs
/// past the buffer leaves the following elements unseen, so the probe asks
/// for more bytes first.
pub open spec fn probe_elems(s: Seq<u8>, count: nat) -> Scan<nat>
    decreases s.len(), 1int, count,
{
    if count == 0 {
        Scan::Done { value: 0, used: 0 }
    } else {
        match probe_frame(s) {
            Scan::Incomplete => Scan::Incomplete,
            Scan::Malformed => Scan::Malformed,
            Scan::Done { value: t1, used: _ } => {
                if t1 > s.len() {
                    Scan::Incomplete
                } else {
                    match probe_elems(s.skip(t1 as int), (count - 1) as nat) {
                        Scan::Incomplete => Scan::Incomplete,
                        Scan::Malformed => Scan::Malformed,
                        Scan::Done { value: t2, used: _ } => {
                            if t1 + t2 > usize::MAX as nat {
                                Scan::Malformed
                            } else {
                                Scan::Done { value: t1 + t2, used: t1 + t2 }
                            }
                        },
                    }
                }
            },
        }
    }
}

/// Exactly `count` consecutive frames from the start of `s`.
pub open spec fn parse_elems(s: Seq<u8>, count: nat) -> Scan<Seq<FrameView>>
    decreases s.len(), 1int, count,
{
    if count == 0 {
        Scan::Done { value: Seq::empty(), used: 0 }
    } else {
        match parse_frame(s) {
            Scan::Incomplete => Scan::Incomplete,
            Scan::Malformed => Scan::Malformed,
            Scan::Done { value: f, used: u } => {
                if u > s.len() {
                    // unreachable, as for arrays above
                    Scan::Malformed
                } else {
                    match parse_elems(s.skip(u as int), (count - 1) as nat) {
                        Scan::Incomplete => Scan::Incomplete,
                        Scan::Malformed => Scan::Malformed,
                        Scan::Done { value: fs, used: u2 } => Scan::Done {
                            value: seq![f] + fs,
                            used: u + u2,
                        },
                    }
                }
            },
        }
    }
}

} // verus!
