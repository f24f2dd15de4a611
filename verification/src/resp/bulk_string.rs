//! The bulk string frame: a length-prefixed byte payload, or the
//! distinguished null form.

use vstd::prelude::*;

use super::buf::{buf_advance, buf_bytes, bytes_view};
use super::codec::{parse_frame_at, probe_frame_at, write_bulk};
use super::{encode_view, parse_frame, probe_frame, FrameView, RespError, RespFrame, Scan};

verus! {

/// A length-prefixed byte payload (`$<len>\r\n<bytes>\r\n` on the wire) or
/// the null bulk string (`$-1\r\n`). Byte length is measured in raw bytes.
#[derive(Debug, Clone, PartialEq, Eq)]
pub struct BulkString {
    pub data: Vec<u8>,
    pub is_null: bool,
}

impl View for BulkString {
    type V = FrameView;

    open spec fn view(&self) -> FrameView {
        if self.is_null {
            FrameView::NullBulk
        } else {
            FrameView::Bulk(self.data@)
        }
    }
}

impl BulkString {
    pub fn new(data: Vec<u8>, is_null: bool) -> (r: BulkString)
        ensures
            r.data == data,
            r.is_null == is_null,
    {
        BulkString { data, is_null }
    }

    /// Exact wire bytes of this bulk string: `$-1\r\n` for the null form,
    /// else the length header, the payload, and a closing CRLF.
    pub fn encode(self) -> (r: Vec<u8>)
        ensures
            r@ == encode_view(self@),
    {
        let mut out: Vec<u8> = Vec::new();
        write_bulk(&self, &mut out);
        proof {
            assert(out@ =~= encode_view(self@));
        }
        out
    }

    /// Decode one bulk string frame from the front of `buf`. On success
    /// exactly the frame's bytes are consumed, and a null bulk string comes
    /// back with an empty payload; on either error the buffer is untouched.
    /// A buffer that does not begin with the `$` prefix is `Malformed` at
    /// once, however short: no further bytes can turn it into a bulk string,
    /// so the error is non-retryable.
    pub fn decode(buf: &mut bytes::BytesMut) -> (r: Result<BulkString, RespError>)
        ensures
            ({
                let pre = bytes_view(*old(buf));
                match r {
                    Ok(b) => parse_frame(pre) matches Scan::Done { value, used } && value == b@
                        && used <= pre.len() && bytes_view(*final(buf)) == pre.skip(used as int)
                        && (b.is_null ==> b.data@.len() == 0),
                    Err(e) => bytes_view(*final(buf)) == pre && (e == RespError::NotComplete <==> (
                    pre.len() == 0 || (pre[0] == 36 && parse_frame(pre) is Incomplete))) && (e
                        == RespError::Malformed <==> ((pre.len() > 0 && pre[0] != 36) || parse_frame(
                        pre,
                    ) is Malformed)),
                }
            }),
    {
        let r = {
            let s = buf_bytes(buf);
            proof {
                assert(s@.skip(0) =~= s@);
            }
            if s.len() > 0 && s[0] != 36 {
                return Err(RespError::Malformed);
            }
            parse_frame_at(s, 0)
        };
        match r {
            Ok((f, end)) => {
                match f {
                    RespFrame::BulkString(b) => {
                        buf_advance(buf, end);
                        Ok(b)
                    },
                    _ => {
                        proof {
                            // under the `$` prefix the parser only ever
                            // yields a bulk string
                            let pre = bytes_view(*old(buf));
                            assert(parse_frame(pre) matches Scan::Done { value, used } && (value
                                is Bulk || value is NullBulk));
                            assert(false);
                        }
                        Err(RespError::Malformed)
                    },
                }
            },
            Err(e) => Err(e),
        }
    }

    /// The total byte span one complete bulk string at the front of `buf`
    /// would occupy, judged from the length header alone, so a caller can
    /// wait for exactly the missing bytes before decoding. A buffer that
    /// does not begin with the `$` prefix is `Malformed` at once, however
    /// short.
    pub fn expect_length(buf: &[u8]) -> (r: Result<usize, RespError>)
        ensures
            match r {
                Ok(n) => probe_frame(buf@) == (Scan::Done { value: n as nat, used: n as nat })
                    && buf@.len() > 0 && buf@[0] == 36,
                Err(e) => (e == RespError::NotComplete <==> (buf@.len() == 0 || (buf@[0] == 36
                    && probe_frame(buf@) is Incomplete))) && (e == RespError::Malformed <==> ((
                buf@.len() > 0 && buf@[0] != 36) || probe_frame(buf@) is Malformed)),
            },
    {
        if buf.len() > 0 && buf[0] != 36 {
            return Err(RespError::Malformed);
        }
        proof {
            assert(buf@.skip(0) =~= buf@);
        }
        probe_frame_at(buf, 0)
    }
}

} // verus!
