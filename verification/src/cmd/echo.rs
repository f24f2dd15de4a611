//! The echo command: pure, answers with its own argument.

use vstd::prelude::*;

use vstd::utf8::{encode_utf8, valid_utf8};

use super::{extract_args, head_is_name, utf8_to_string, validate_command, CommandError};
use crate::backend::Backend;
use crate::resp::{elems_view, frame_view, lemma_elems_view_index, BulkString, FrameView,
    RespArray, RespFrame};

verus! {

broadcast use vstd::seq::group_seq_axioms, vstd::std_specs::vec::group_vec_axioms;

/// Echo a message back to the client.
#[derive(Debug)]
pub struct Echo {
    pub msg: String,
}

/// The canonical wire name of the echo command.
pub open spec fn echo_name() -> Seq<u8> {
    seq![101u8, 99u8, 104u8, 111u8]
}

/// The bytes of `echo_name`, built for comparison against a request head.
fn echo_name_bytes() -> (r: Vec<u8>)
    ensures
        r@ == echo_name(),
{
    let mut v: Vec<u8> = Vec::new();
    v.push(101);
    v.push(99);
    v.push(104);
    v.push(111);
    proof {
        assert(v@ =~= echo_name());
    }
    v
}

/// A well-formed echo request: the name and exactly one bulk-string
/// argument holding valid text.
pub open spec fn is_echo_request(elems: Seq<FrameView>) -> bool {
    &&& elems.len() == 2
    &&& head_is_name(elems, echo_name())
    &&& elems[1] matches FrameView::Bulk(d) && valid_utf8(d)
}

impl Echo {
    /// Builds the command from a decoded array, failing closed on any
    /// structural mismatch before the backend is ever touched.
    pub fn try_from(v: RespArray) -> (r: Result<Echo, CommandError>)
        ensures
            r is Ok <==> is_echo_request(elems_view(v.elems@)),
            r matches Ok(c) ==> (elems_view(v.elems@)[1] matches FrameView::Bulk(d) && encode_utf8(
                c.msg@,
            ) == d),
    {
        let ghost velems = v.elems@;
        proof {
            lemma_elems_view_index(velems);
        }
        let name = echo_name_bytes();
        match validate_command(&v, name.as_slice(), 1) {
            Err(e) => Err(e),
            Ok(_) => {
                let mut args = match extract_args(v, 1) {
                    Ok(a) => a,
                    Err(e) => {
                        return Err(e);
                    },
                };
                proof {
                    assert(args@[0] == velems[1]);
                }
                let first = args.remove(0);
                match first {
                    RespFrame::BulkString(b) => {
                        if b.is_null {
                            return Err(
                                CommandError::InvalidArgument("invalid argument".to_owned()),
                            );
                        }
                        match utf8_to_string(b.data) {
                            Some(msg) => Ok(Echo { msg }),
                            None => Err(
                                CommandError::InvalidArgument("argument is not text".to_owned()),
                            ),
                        }
                    },
                    _ => Err(CommandError::InvalidArgument("invalid argument".to_owned())),
                }
            },
        }
    }

    /// Pure: answers with a bulk string holding the message; the backend is
    /// untouched.
    pub fn execute(self, _backend: &Backend) -> (r: RespFrame)
        ensures
            frame_view(r) == FrameView::Bulk(encode_utf8(self.msg@)),
    {
        let data = self.msg.as_str().as_bytes_vec();
        RespFrame::BulkString(BulkString::new(data, false))
    }
}

} // verus!
