//! Facts about the wire grammar: the scanners' characterisations, the
//! decimal round trip, and the laws tying the parser to the encoder.

use vstd::prelude::*;

use super::{
    all_digits, clean_text, crlf, dec_rep, dec_val, digit_run, encode_view, encode_views, int_rep,
    is_digit, is_line_byte, line_run, parse_bool, parse_bulk, parse_decimal, parse_elems,
    parse_frame, parse_int, parse_line, parse_null_marker, probe_elems, probe_frame, valid_view,
    valid_views, FrameView, Scan,
};

verus! {

broadcast use vstd::seq::group_seq_axioms;

/// The canonical decimal digits of `n` are digits, carry no leading zero,
/// and denote `n`.
pub proof fn lemma_dec_rep_canonical(n: nat)
    ensures
        dec_rep(n).len() >= 1,
        all_digits(dec_rep(n)),
        n < 10 ==> dec_rep(n).len() == 1,
        dec_rep(n).len() > 1 ==> dec_rep(n)[0] != 48,
        n >= 1 ==> dec_rep(n)[0] != 48,
        dec_val(dec_rep(n)) == n,
    decreases n,
{
    if n < 10 {
        let s = dec_rep(n);
        assert(s == seq![(48 + n) as u8]);
        assert(s.drop_last() =~= Seq::<u8>::empty());
        assert(s.last() == (48 + n) as u8);
        assert((48 + n) as u8 == 48 + n);
        assert(dec_val(s) == dec_val(s.drop_last()) * 10 + s.last() - 48);
    } else {
        lemma_dec_rep_canonical(n / 10);
        let p = dec_rep(n / 10);
        let d = (48 + n % 10) as u8;
        let s = p.push(d);
        assert(s.drop_last() =~= p);
        assert(s.last() == d);
        assert forall|i: int| 0 <= i < s.len() implies is_digit(#[trigger] s[i]) by {
            if i < p.len() {
                assert(s[i] == p[i]);
            }
        }
        assert(s[0] == p[0]);
        assert(d == 48 + n % 10);
        assert(dec_val(s) == dec_val(p) * 10 + d - 48);
        assert(n / 10 * 10 + n % 10 == n);
    }
}

/// A digit string denotes a non-negative value.
pub proof fn lemma_dec_val_nonneg(s: Seq<u8>)
    requires
        all_digits(s),
    ensures
        dec_val(s) >= 0,
    decreases s.len(),
{
    if s.len() > 0 {
        let p = s.drop_last();
        assert forall|i: int| 0 <= i < p.len() implies is_digit(#[trigger] p[i]) by {
            assert(p[i] == s[i]);
        }
        lemma_dec_val_nonneg(p);
    }
}

/// A canonical decimal followed by CRLF parses back to its value, whatever
/// follows.
pub proof fn lemma_parse_decimal_encode(n: nat, rest: Seq<u8>)
    ensures
        parse_decimal(dec_rep(n) + crlf() + rest) == (Scan::Done {
            value: n,
            used: dec_rep(n).len() + 2,
        }),
{
    let d = dec_rep(n);
    let s = d + crlf() + rest;
    let k = d.len() as int;
    lemma_dec_rep_canonical(n);
    assert forall|i: int| 0 <= i < k implies is_digit(#[trigger] s[i]) by {
        assert(s[i] == d[i]);
    }
    assert(s[k] == 13);
    assert(!is_digit(s[k]));
    lemma_digit_run_is(s, k);
    assert(s[k + 1] == 10);
    assert(s[0] == d[0]);
    assert(s.take(k) =~= d);
}

/// A delimiter-free line followed by CRLF parses back to itself, whatever
/// follows.
pub proof fn lemma_parse_line_encode(d: Seq<u8>, rest: Seq<u8>)
    requires
        clean_text(d),
    ensures
        parse_line(d + crlf() + rest) == (Scan::Done { value: d, used: d.len() + 2 }),
{
    let s = d + crlf() + rest;
    let k = d.len() as int;
    assert forall|i: int| 0 <= i < k implies is_line_byte(#[trigger] s[i]) by {
        assert(s[i] == d[i]);
    }
    assert(s[k] == 13);
    assert(!is_line_byte(s[k]));
    lemma_line_run_is(s, k);
    assert(s[k + 1] == 10);
    assert(s.take(k) =~= d);
}

/// A signed canonical decimal in the 64-bit range parses back to its value.
pub proof fn lemma_parse_int_encode(i: i64, rest: Seq<u8>)
    ensures
        parse_int(int_rep(i as int) + crlf() + rest) == (Scan::Done {
            value: FrameView::Int(i),
            used: int_rep(i as int).len() + 2,
        }),
{
    let s = int_rep(i as int) + crlf() + rest;
    if i < 0 {
        let mag = (-(i as int)) as nat;
        let d = dec_rep(mag);
        lemma_dec_rep_canonical(mag);
        assert(s[0] == 45);
        assert(s.skip(1) =~= d + crlf() + rest);
        lemma_parse_decimal_encode(mag, rest);
        assert(1 <= mag <= 0x8000_0000_0000_0000nat);
        assert((-(mag as int)) as i64 == i);
    } else {
        let d = dec_rep(i as nat);
        lemma_dec_rep_canonical(i as nat);
        assert(s[0] == d[0]);
        assert(is_digit(s[0]));
        assert(s[0] != 45);
        assert(s =~= d + crlf() + rest);
        lemma_parse_decimal_encode(i as nat, rest);
        assert(i as nat <= 0x7fff_ffff_ffff_ffffnat);
    }
}

/// A length-prefixed payload with its closing CRLF parses back to itself.
pub proof fn lemma_parse_bulk_encode(d: Seq<u8>, rest: Seq<u8>)
    requires
        d.len() <= usize::MAX as nat,
    ensures
        parse_bulk(dec_rep(d.len()) + crlf() + d + crlf() + rest) == (Scan::Done {
            value: FrameView::Bulk(d),
            used: dec_rep(d.len()).len() + 2 + d.len() + 2,
        }),
{
    let h = dec_rep(d.len());
    let s = h + crlf() + d + crlf() + rest;
    lemma_dec_rep_canonical(d.len());
    assert(s[0] == h[0]);
    assert(is_digit(s[0]));
    assert(s[0] != 45);
    assert(s =~= h + crlf() + (d + crlf() + rest));
    lemma_parse_decimal_encode(d.len(), d + crlf() + rest);
    let u = h.len() + 2;
    assert(parse_decimal(s) == (Scan::Done { value: d.len(), used: u as nat }));
    assert(s.len() == u + d.len() + 2 + rest.len());
    assert(s[(u + d.len()) as int] == 13);
    assert(s[(u + d.len() + 1) as int] == 10);
    assert(s.subrange(u as int, (u + d.len()) as int) =~= d);
}

/// The fixed null marker parses back, whatever follows.
pub proof fn lemma_parse_null_encode(rest: Seq<u8>)
    ensures
        parse_null_marker(seq![45u8, 49u8, 13u8, 10u8] + rest) == (Scan::Done {
            value: true,
            used: 4nat,
        }),
{
    let s = seq![45u8, 49u8, 13u8, 10u8] + rest;
    assert(s[1] == 49);
    assert(s[2] == 13);
    assert(s[3] == 10);
}

/// Round trip, frame by frame: the exact wire bytes of a representable
/// frame value decode back to that value, consuming exactly its span,
/// whatever follows it in the buffer.
#[verifier::rlimit(100)]
#[verifier::spinoff_prover]
pub proof fn lemma_round_trip(v: FrameView, rest: Seq<u8>)
    requires
        valid_view(v),
    ensures
        parse_frame(encode_view(v) + rest) == (Scan::Done {
            value: v,
            used: encode_view(v).len(),
        }),
    decreases v, 0int,
{
    let s = encode_view(v) + rest;
    match v {
        FrameView::Simple(d) => {
            assert(s[0] == 43);
            assert(s.skip(1) =~= d + crlf() + rest);
            lemma_parse_line_encode(d, rest);
        },
        FrameView::Error(d) => {
            assert(s[0] == 45);
            assert(s.skip(1) =~= d + crlf() + rest);
            lemma_parse_line_encode(d, rest);
        },
        FrameView::Int(i) => {
            assert(s[0] == 58);
            assert(s.skip(1) =~= int_rep(i as int) + crlf() + rest);
            lemma_parse_int_encode(i, rest);
        },
        FrameView::Bulk(d) => {
            assert(s[0] == 36);
            assert(s.skip(1) =~= dec_rep(d.len()) + crlf() + d + crlf() + rest);
            lemma_parse_bulk_encode(d, rest);
        },
        FrameView::NullBulk => {
            assert(s[0] == 36);
            assert(s.skip(1) =~= seq![45u8, 49u8, 13u8, 10u8] + rest);
            assert(s.skip(1)[0] == 45);
            lemma_parse_null_encode(rest);
        },
        FrameView::Arr(es) => {
            assert(s[0] == 42);
            let h = dec_rep(es.len());
            lemma_dec_rep_canonical(es.len());
            let body = encode_views(es) + rest;
            assert(s.skip(1) =~= h + crlf() + body);
            assert(s.skip(1)[0] == h[0]);
            assert(is_digit(s.skip(1)[0]));
            assert(s.skip(1)[0] != 45);
            lemma_parse_decimal_encode(es.len(), body);
            let u = h.len() + 2;
            assert(parse_decimal(s.skip(1)) == (Scan::Done { value: es.len(), used: u as nat }));
            assert(u <= s.skip(1).len());
            assert(s.skip(1).skip(u as int) =~= body);
            lemma_elems_round_trip(es, rest);
            assert(parse_elems(body, es.len()) == (Scan::Done {
                value: es,
                used: encode_views(es).len(),
            }));
            assert(encode_view(v).len() == 1 + u + encode_views(es).len());
        },
        FrameView::NullArr => {
            assert(s[0] == 42);
            assert(s.skip(1) =~= seq![45u8, 49u8, 13u8, 10u8] + rest);
            assert(s.skip(1)[0] == 45);
            lemma_parse_null_encode(rest);
        },
        FrameView::Bool(b) => {
            assert(s[0] == 35);
            let t = s.skip(1);
            assert(t[0] == (if b {
                116u8
            } else {
                102u8
            }));
            assert(t[1] == 13);
            assert(t[2] == 10);
        },
        FrameView::Pairs(es) => {
            assert(s[0] == 37);
            let pairs = (es.len() / 2) as nat;
            let h = dec_rep(pairs);
            lemma_dec_rep_canonical(pairs);
            let body = encode_views(es) + rest;
            assert(s.skip(1) =~= h + crlf() + body);
            lemma_parse_decimal_encode(pairs, body);
            let u = h.len() + 2;
            assert(parse_decimal(s.skip(1)) == (Scan::Done { value: pairs, used: u as nat }));
            assert(u <= s.skip(1).len());
            assert(s.skip(1).skip(u as int) =~= body);
            lemma_elems_round_trip(es, rest);
            assert(2 * pairs == es.len());
            assert(parse_elems(body, es.len()) == (Scan::Done {
                value: es,
                used: encode_views(es).len(),
            }));
            assert(encode_view(v).len() == 1 + u + encode_views(es).len());
        },
        FrameView::Members(es) => {
            assert(s[0] == 126);
            let h = dec_rep(es.len());
            lemma_dec_rep_canonical(es.len());
            let body = encode_views(es) + rest;
            assert(s.skip(1) =~= h + crlf() + body);
            lemma_parse_decimal_encode(es.len(), body);
            let u = h.len() + 2;
            assert(parse_decimal(s.skip(1)) == (Scan::Done { value: es.len(), used: u as nat }));
            assert(u <= s.skip(1).len());
            assert(s.skip(1).skip(u as int) =~= body);
            lemma_elems_round_trip(es, rest);
            assert(parse_elems(body, es.len()) == (Scan::Done {
                value: es,
                used: encode_views(es).len(),
            }));
            assert(encode_view(v).len() == 1 + u + encode_views(es).len());
        },
    }
}

/// Round trip for a run of frames: encoded one after another, they decode
/// back in order, consuming exactly their combined span.
pub proof fn lemma_elems_round_trip(es: Seq<FrameView>, rest: Seq<u8>)
    requires
        valid_views(es),
    ensures
        parse_elems(encode_views(es) + rest, es.len()) == (Scan::Done {
            value: es,
            used: encode_views(es).len(),
        }),
    decreases es, 1int,
{
    let s = encode_views(es) + rest;
    if es.len() == 0 {
        assert(encode_views(es) == Seq::<u8>::empty());
        assert(parse_elems(s, 0) == (Scan::Done { value: Seq::<FrameView>::empty(), used: 0nat }));
        assert(es =~= Seq::<FrameView>::empty());
    } else {
        let head = es[0];
        let tail = es.skip(1);
        let l0 = encode_view(head).len();
        assert(s =~= encode_view(head) + (encode_views(tail) + rest));
        lemma_round_trip(head, encode_views(tail) + rest);
        assert(parse_frame(s) == (Scan::Done { value: head, used: l0 }));
        assert(l0 <= s.len());
        assert(s.skip(l0 as int) =~= encode_views(tail) + rest);
        lemma_elems_round_trip(tail, rest);
        assert(seq![head] + tail =~= es);
        assert(encode_views(es).len() == l0 + encode_views(tail).len());
    }
}

/// What a scanner's count says of the bytes themselves.
pub proof fn lemma_digit_run_facts(s: Seq<u8>)
    ensures
        digit_run(s) <= s.len(),
        forall|i: int| 0 <= i < digit_run(s) ==> is_digit(#[trigger] s[i]),
        digit_run(s) < s.len() ==> !is_digit(s[digit_run(s) as int]),
    decreases s.len(),
{
    if s.len() > 0 && is_digit(s[0]) {
        let t = s.skip(1);
        lemma_digit_run_facts(t);
        assert forall|i: int| 0 <= i < digit_run(s) implies is_digit(#[trigger] s[i]) by {
            if i > 0 {
                assert(t[i - 1] == s[i]);
            }
        }
        if digit_run(s) < s.len() {
            assert(t[digit_run(t) as int] == s[digit_run(s) as int]);
        }
    }
}

/// What a scanner's count says of the bytes themselves.
pub proof fn lemma_line_run_facts(s: Seq<u8>)
    ensures
        line_run(s) <= s.len(),
        forall|i: int| 0 <= i < line_run(s) ==> is_line_byte(#[trigger] s[i]),
        line_run(s) < s.len() ==> !is_line_byte(s[line_run(s) as int]),
    decreases s.len(),
{
    if s.len() > 0 && is_line_byte(s[0]) {
        let t = s.skip(1);
        lemma_line_run_facts(t);
        assert forall|i: int| 0 <= i < line_run(s) implies is_line_byte(#[trigger] s[i]) by {
            if i > 0 {
                assert(t[i - 1] == s[i]);
            }
        }
        if line_run(s) < s.len() {
            assert(t[line_run(t) as int] == s[line_run(s) as int]);
        }
    }
}

/// A settled decimal scan does not change when more bytes arrive.
pub proof fn lemma_parse_decimal_ext(s: Seq<u8>, t: Seq<u8>)
    requires
        !(parse_decimal(s) is Incomplete),
    ensures
        parse_decimal(s + t) == parse_decimal(s),
        parse_decimal(s) matches Scan::Done { value, used } ==> 3 <= used <= s.len(),
{
    let w = s + t;
    lemma_digit_run_facts(s);
    let k = digit_run(s) as int;
    assert(k < s.len());
    assert forall|i: int| 0 <= i < k implies is_digit(#[trigger] w[i]) by {
        assert(w[i] == s[i]);
    }
    assert(w[k] == s[k]);
    lemma_digit_run_is(w, k);
    if k > 0 && s[k] == 13 && k + 1 < s.len() {
        assert(w[k + 1] == s[k + 1]);
        if s[k + 1] == 10 {
            assert(w[0] == s[0]);
            assert(w.take(k) =~= s.take(k));
        }
    }
}

/// A settled line scan does not change when more bytes arrive.
pub proof fn lemma_parse_line_ext(s: Seq<u8>, t: Seq<u8>)
    requires
        !(parse_line(s) is Incomplete),
    ensures
        parse_line(s + t) == parse_line(s),
        parse_line(s) matches Scan::Done { value, used } ==> 2 <= used <= s.len(),
{
    let w = s + t;
    lemma_line_run_facts(s);
    let k = line_run(s) as int;
    assert(k < s.len());
    assert forall|i: int| 0 <= i < k implies is_line_byte(#[trigger] w[i]) by {
        assert(w[i] == s[i]);
    }
    assert(w[k] == s[k]);
    lemma_line_run_is(w, k);
    if s[k] != 10 && k + 1 < s.len() {
        assert(w[k + 1] == s[k + 1]);
        if s[k + 1] == 10 {
            assert(w.take(k) =~= s.take(k));
        }
    }
}

/// A settled null-marker scan does not change when more bytes arrive.
pub proof fn lemma_parse_null_ext(s: Seq<u8>, t: Seq<u8>)
    requires
        !(parse_null_marker(s) is Incomplete),
    ensures
        parse_null_marker(s + t) == parse_null_marker(s),
        parse_null_marker(s) matches Scan::Done { value, used } ==> used == 4 && s.len() >= 4,
{
    let w = s + t;
    assert(s.len() > 1);
    assert(w[1] == s[1]);
    if s[1] == 49 {
        assert(s.len() > 2);
        assert(w[2] == s[2]);
        if s[2] == 13 {
            assert(s.len() > 3);
            assert(w[3] == s[3]);
        }
    }
}

/// A settled boolean scan does not change when more bytes arrive.
pub proof fn lemma_parse_bool_ext(s: Seq<u8>, t: Seq<u8>)
    requires
        !(parse_bool(s) is Incomplete),
    ensures
        parse_bool(s + t) == parse_bool(s),
        parse_bool(s) matches Scan::Done { value, used } ==> used == 3 && s.len() >= 3,
{
    let w = s + t;
    assert(s.len() > 0);
    assert(w[0] == s[0]);
    if s[0] == 116 || s[0] == 102 {
        assert(s.len() > 1);
        assert(w[1] == s[1]);
        if s[1] == 13 {
            assert(s.len() > 2);
            assert(w[2] == s[2]);
        }
    }
}

/// A settled integer scan does not change when more bytes arrive.
pub proof fn lemma_parse_int_ext(s: Seq<u8>, t: Seq<u8>)
    requires
        !(parse_int(s) is Incomplete),
    ensures
        parse_int(s + t) == parse_int(s),
        parse_int(s) matches Scan::Done { value, used } ==> 3 <= used <= s.len(),
{
    let w = s + t;
    assert(s.len() > 0);
    assert(w[0] == s[0]);
    if s[0] == 45 {
        assert(s.skip(1) + t =~= w.skip(1));
        lemma_parse_decimal_ext(s.skip(1), t);
    } else {
        lemma_parse_decimal_ext(s, t);
    }
}

/// A settled bulk-string scan does not change when more bytes arrive.
pub proof fn lemma_parse_bulk_ext(s: Seq<u8>, t: Seq<u8>)
    requires
        !(parse_bulk(s) is Incomplete),
    ensures
        parse_bulk(s + t) == parse_bulk(s),
        parse_bulk(s) matches Scan::Done { value, used } ==> 4 <= used <= s.len(),
{
    let w = s + t;
    assert(s.len() > 0);
    assert(w[0] == s[0]);
    if s[0] == 45 {
        lemma_parse_null_ext(s, t);
    } else {
        lemma_parse_decimal_ext(s, t);
        match parse_decimal(s) {
            Scan::Done { value: n, used: u } => {
                if n <= usize::MAX as nat {
                    assert(s.len() >= u + n + 2);
                    assert(w[(u + n) as int] == s[(u + n) as int]);
                    assert(w[(u + n) as int + 1] == s[(u + n) as int + 1]);
                    assert(w.subrange(u as int, (u + n) as int) =~= s.subrange(
                        u as int,
                        (u + n) as int,
                    ));
                }
            },
            _ => {},
        }
    }
}

/// A settled frame scan does not change when more bytes arrive, and a
/// complete frame's span lies within the scanned buffer.
#[verifier::rlimit(100)]
#[verifier::spinoff_prover]
pub proof fn lemma_parse_frame_ext(s: Seq<u8>, t: Seq<u8>)
    requires
        !(parse_frame(s) is Incomplete),
    ensures
        parse_frame(s + t) == parse_frame(s),
        parse_frame(s) matches Scan::Done { value, used } ==> 3 <= used <= s.len(),
    decreases s.len(), 0int, 0nat,
{
    let w = s + t;
    assert(s.len() > 0);
    assert(w[0] == s[0]);
    let rest = s.skip(1);
    let wrest = w.skip(1);
    assert(wrest =~= rest + t);
    let c = s[0];
    if c == 43 || c == 45 {
        lemma_parse_line_ext(rest, t);
    } else if c == 58 {
        lemma_parse_int_ext(rest, t);
    } else if c == 36 {
        lemma_parse_bulk_ext(rest, t);
    } else if c == 35 {
        lemma_parse_bool_ext(rest, t);
    } else if c == 42 {
        assert(rest.len() > 0);
        assert(wrest[0] == rest[0]);
        if rest[0] == 45 {
            lemma_parse_null_ext(rest, t);
        } else {
            lemma_parse_decimal_ext(rest, t);
            match parse_decimal(rest) {
                Scan::Done { value: n, used: u } => {
                    if n <= usize::MAX as nat {
                        assert(u <= rest.len());
                        assert(rest.skip(u as int) + t =~= wrest.skip(u as int));
                        lemma_parse_elems_ext(rest.skip(u as int), t, n);
                    }
                },
                _ => {},
            }
        }
    } else if c == 126 {
        lemma_parse_decimal_ext(rest, t);
        match parse_decimal(rest) {
            Scan::Done { value: n, used: u } => {
                if n <= usize::MAX as nat {
                    assert(u <= rest.len());
                    assert(rest.skip(u as int) + t =~= wrest.skip(u as int));
                    lemma_parse_elems_ext(rest.skip(u as int), t, n);
                }
            },
            _ => {},
        }
    } else if c == 37 {
        lemma_parse_decimal_ext(rest, t);
        match parse_decimal(rest) {
            Scan::Done { value: n, used: u } => {
                if n <= usize::MAX as nat / 2 {
                    assert(u <= rest.len());
                    assert(rest.skip(u as int) + t =~= wrest.skip(u as int));
                    lemma_parse_elems_ext(rest.skip(u as int), t, 2 * n);
                }
            },
            _ => {},
        }
    }
}

/// A settled scan of a run of frames does not change when more bytes
/// arrive, and its span lies within the scanned buffer.
pub proof fn lemma_parse_elems_ext(s: Seq<u8>, t: Seq<u8>, count: nat)
    requires
        !(parse_elems(s, count) is Incomplete),
    ensures
        parse_elems(s + t, count) == parse_elems(s, count),
        parse_elems(s, count) matches Scan::Done { value, used } ==> used <= s.len(),
    decreases s.len(), 1int, count,
{
    if count == 0 {
    } else {
        lemma_parse_frame_ext(s, t);
        match parse_frame(s) {
            Scan::Done { value: f, used: u } => {
                assert(u <= s.len());
                assert(s.skip(u as int) + t =~= (s + t).skip(u as int));
                lemma_parse_elems_ext(s.skip(u as int), t, (count - 1) as nat);
            },
            _ => {},
        }
    }
}

/// The probe agrees with the parser: wherever decoding a buffer yields a
/// complete frame, the probe names exactly that frame's span. (The probe may
/// also answer on buffers whose bulk payloads are still missing, which the
/// parser calls incomplete.)
#[verifier::rlimit(100)]
#[verifier::spinoff_prover]
pub proof fn lemma_probe_agrees(s: Seq<u8>)
    requires
        s.len() <= usize::MAX as nat,
        parse_frame(s) is Done,
    ensures
        parse_frame(s) matches Scan::Done { value, used } ==> probe_frame(s) == (Scan::Done {
            value: used,
            used,
        }),
    decreases s.len(), 0int, 0nat,
{
    assert(s + Seq::<u8>::empty() =~= s);
    lemma_parse_frame_ext(s, Seq::<u8>::empty());
    let rest = s.skip(1);
    let c = s[0];
    if c == 42 {
        if rest[0] != 45 {
            match parse_decimal(rest) {
                Scan::Done { value: n, used: u } => {
                    if n <= usize::MAX as nat && u <= rest.len() {
                        let body = rest.skip(u as int);
                        assert(body + Seq::<u8>::empty() =~= body);
                        lemma_parse_elems_ext(body, Seq::<u8>::empty(), n);
                        lemma_probe_elems_agrees(body, n);
                    }
                },
                _ => {},
            }
        }
    } else if c == 126 {
        match parse_decimal(rest) {
            Scan::Done { value: n, used: u } => {
                if n <= usize::MAX as nat && u <= rest.len() {
                    let body = rest.skip(u as int);
                    assert(body + Seq::<u8>::empty() =~= body);
                    lemma_parse_elems_ext(body, Seq::<u8>::empty(), n);
                    lemma_probe_elems_agrees(body, n);
                }
            },
            _ => {},
        }
    } else if c == 37 {
        match parse_decimal(rest) {
            Scan::Done { value: n, used: u } => {
                if n <= usize::MAX as nat / 2 && u <= rest.len() {
                    let body = rest.skip(u as int);
                    assert(body + Seq::<u8>::empty() =~= body);
                    lemma_parse_elems_ext(body, Seq::<u8>::empty(), 2 * n);
                    lemma_probe_elems_agrees(body, 2 * n);
                }
            },
            _ => {},
        }
    }
}

/// The probe agrees with the parser on complete runs of frames.
pub proof fn lemma_probe_elems_agrees(s: Seq<u8>, count: nat)
    requires
        s.len() <= usize::MAX as nat,
        parse_elems(s, count) is Done,
    ensures
        parse_elems(s, count) matches Scan::Done { value, used } ==> probe_elems(s, count)
            == (Scan::Done { value: used, used }),
    decreases s.len(), 1int, count,
{
    if count == 0 {
    } else {
        assert(s + Seq::<u8>::empty() =~= s);
        lemma_parse_frame_ext(s, Seq::<u8>::empty());
        lemma_probe_agrees(s);
        match parse_frame(s) {
            Scan::Done { value: f, used: u } => {
                let tail = s.skip(u as int);
                assert(tail + Seq::<u8>::empty() =~= tail);
                lemma_parse_elems_ext(tail, Seq::<u8>::empty(), (count - 1) as nat);
                lemma_probe_elems_agrees(tail, (count - 1) as nat);
            },
            _ => {},
        }
    }
}

/// Partial-read safety: every proper prefix of a frame's exact wire bytes
/// is answered with the incomplete outcome, never a value and never a
/// malformed verdict, so a caller may wait for more bytes and retry the
/// identical call.
pub proof fn lemma_prefix_incomplete(v: FrameView, i: int)
    requires
        valid_view(v),
        0 <= i < encode_view(v).len(),
    ensures
        parse_frame(encode_view(v).take(i)) is Incomplete,
{
    let e = encode_view(v);
    let p = e.take(i);
    lemma_round_trip(v, Seq::empty());
    assert(e + Seq::<u8>::empty() =~= e);
    assert(parse_frame(e) == (Scan::Done { value: v, used: e.len() }));
    if !(parse_frame(p) is Incomplete) {
        lemma_parse_frame_ext(p, e.skip(i));
        assert(p + e.skip(i) =~= e);
        assert(parse_frame(e) == parse_frame(p));
        assert(parse_frame(p) matches Scan::Done { value, used } ==> used <= p.len());
        assert(false);
    }
}


/// A leading digit run is exactly the longest digit prefix.
pub proof fn lemma_digit_run_is(s: Seq<u8>, k: int)
    requires
        0 <= k <= s.len(),
        forall|i: int| 0 <= i < k ==> is_digit(#[trigger] s[i]),
        k < s.len() ==> !is_digit(s[k]),
    ensures
        digit_run(s) == k,
    decreases k,
{
    if k == 0 {
    } else {
        assert(is_digit(s[0]));
        let t = s.skip(1);
        assert forall|i: int| 0 <= i < k - 1 implies is_digit(#[trigger] t[i]) by {
            assert(t[i] == s[i + 1]);
        }
        if k - 1 < t.len() {
            assert(t[k - 1] == s[k]);
        }
        lemma_digit_run_is(t, k - 1);
    }
}

/// A leading line run is exactly the longest delimiter-free prefix.
pub proof fn lemma_line_run_is(s: Seq<u8>, k: int)
    requires
        0 <= k <= s.len(),
        forall|i: int| 0 <= i < k ==> is_line_byte(#[trigger] s[i]),
        k < s.len() ==> !is_line_byte(s[k]),
    ensures
        line_run(s) == k,
    decreases k,
{
    if k == 0 {
    } else {
        assert(is_line_byte(s[0]));
        let t = s.skip(1);
        assert forall|i: int| 0 <= i < k - 1 implies is_line_byte(#[trigger] t[i]) by {
            assert(t[i] == s[i + 1]);
        }
        if k - 1 < t.len() {
            assert(t[k - 1] == s[k]);
        }
        lemma_line_run_is(t, k - 1);
    }
}

} // verus!
