//! Command parsing, validation and execution: a decoded array frame becomes
//! a typed command, or an `InvalidArgument` error before any backend access.

use vstd::prelude::*;

use vstd::string::StrSliceExecFns;
use vstd::utf8::{decode_utf8, encode_utf8};

use crate::backend::{added_members, new_member_count, Backend};
use crate::resp::{elems_view, frame_view, lemma_elems_view_index, FrameView, RespArray, RespFrame};

pub mod echo;
pub mod set;

pub use echo::Echo;
pub use set::SAdd;
pub use set::SIsMember;

use echo::{echo_name, is_echo_request};
use set::{is_sadd_request, is_sismember_request, member_texts, sadd_name, sismember_name};

verus! {

broadcast use vstd::seq::group_seq_axioms, vstd::std_specs::vec::group_vec_axioms;

/// Why a decoded frame could not become a command. The message is for the
/// client; the connection stays open.
#[derive(Debug)]
pub enum CommandError {
    InvalidArgument(String),
}

/// Relies on `String::from_utf8`: succeeds exactly on valid UTF-8 input,
/// and the returned string's encoding is the input bytes.
#[verifier::external_body]
pub(crate) fn utf8_to_string(bytes: Vec<u8>) -> (r: Option<String>)
    ensures
        r is Some <==> vstd::utf8::valid_utf8(bytes@),
        r matches Some(s) ==> vstd::utf8::encode_utf8(s@) == bytes@,
{
    String::from_utf8(bytes).ok()
}

/// Byte-for-byte equality of two slices.
pub(crate) fn bytes_eq(a: &[u8], b: &[u8]) -> (r: bool)
    ensures
        r == (a@ == b@),
{
    if a.len() != b.len() {
        return false;
    }
    let mut i: usize = 0;
    while i < a.len()
        invariant
            i <= a@.len(),
            a@.len() == b@.len(),
            forall|j: int| 0 <= j < i ==> a@[j] == b@[j],
        decreases a@.len() - i,
    {
        if a[i] != b[i] {
            return false;
        }
        i = i + 1;
    }
    proof {
        assert(a@ =~= b@);
    }
    true
}

/// The first element is a non-null bulk string spelling the name.
pub open spec fn head_is_name(elems: Seq<FrameView>, name: Seq<u8>) -> bool {
    elems.len() > 0 && elems[0] == FrameView::Bulk(name)
}

/// Fails unless the array's first element is a bulk string spelling one of
/// the expected names (canonical lowercase) and exactly `arity` arguments
/// follow it.
pub fn validate_command(v: &RespArray, name: &[u8], arity: usize) -> (r: Result<
    (),
    CommandError,
>)
    ensures
        r is Ok <==> (head_is_name(elems_view(v.elems@), name@) && v.elems@.len() == arity + 1),
{
    match validate_name(v, name) {
        Err(e) => Err(e),
        Ok(_) => {
            if v.elems.len() - 1 != arity {
                Err(CommandError::InvalidArgument("wrong number of arguments".to_owned()))
            } else {
                Ok(())
            }
        },
    }
}

/// Fails unless the array's first element spells one of the expected names
/// and the array holds at least `min_total` elements, name included — for
/// variadic commands.
pub fn validate_multi_arg_command(v: &RespArray, name: &[u8], min_total: usize) -> (r: Result<
    (),
    CommandError,
>)
    ensures
        r is Ok <==> (head_is_name(elems_view(v.elems@), name@) && v.elems@.len() >= min_total),
{
    match validate_name(v, name) {
        Err(e) => Err(e),
        Ok(_) => {
            if v.elems.len() < min_total {
                Err(CommandError::InvalidArgument("wrong number of arguments".to_owned()))
            } else {
                Ok(())
            }
        },
    }
}

/// The shared name check of the two validators.
fn validate_name(v: &RespArray, name: &[u8]) -> (r: Result<(), CommandError>)
    ensures
        r is Ok <==> head_is_name(elems_view(v.elems@), name@),
{
    proof {
        lemma_elems_view_index(v.elems@);
    }
    if v.elems.len() == 0 {
        return Err(CommandError::InvalidArgument("empty request".to_owned()));
    }
    let head = &v.elems[0];
    match head {
        RespFrame::BulkString(b) => {
            if b.is_null {
                return Err(CommandError::InvalidArgument("invalid command name".to_owned()));
            }
            if bytes_eq(b.data.as_slice(), name) {
                proof {
                    assert(elems_view(v.elems@)[0] == FrameView::Bulk(name@));
                }
                Ok(())
            } else {
                Err(CommandError::InvalidArgument("unknown command".to_owned()))
            }
        },
        _ => Err(CommandError::InvalidArgument("invalid command name".to_owned())),
    }
}

/// The elements after the first `skip` ones, in order — the command's
/// arguments once the name is dropped. It never fails; the `Result` mirrors
/// the rest of the parsing interface.
pub fn extract_args(v: RespArray, skip: usize) -> (r: Result<Vec<RespFrame>, CommandError>)
    ensures
        r matches Ok(args) && args@ == if skip <= v.elems@.len() {
            v.elems@.skip(skip as int)
        } else {
            Seq::<RespFrame>::empty()
        },
{
    let mut elems = v.elems;
    if skip > elems.len() {
        return Ok(Vec::new());
    }
    let tail = elems.split_off(skip);
    Ok(tail)
}

/// The protocol-level error frame for a request the dispatcher refuses: the
/// error goes back to the client and the connection stays open.
fn refusal_frame() -> (r: RespFrame)
    ensures
        r is SimpleError,
{
    RespFrame::SimpleError("ERR unknown or malformed command".as_bytes_vec())
}

/// Runs the command a request array names against the store and answers the
/// response frame: echo answers its argument, set-add the count of new
/// members, membership-test one or zero. An unknown name or a malformed
/// request is answered with an error frame, and the store is never touched
/// before a command validates; a set-add whose member count cannot be
/// represented in the reply's integer is likewise refused.
pub fn dispatch(frame: RespArray, backend: &mut Backend) -> (r: RespFrame)
    ensures
        ({
            let ev = elems_view(frame.elems@);
            &&& is_echo_request(ev) ==> (frame_view(r) == FrameView::Bulk(ev[1]->Bulk_0)
                && final(backend).same_store(*old(backend)))
            &&& is_sismember_request(ev) ==> (frame_view(r) == FrameView::Int(
                if old(backend).sets().contains_key(decode_utf8(ev[1]->Bulk_0)) && old(
                    backend,
                ).sets()[decode_utf8(ev[1]->Bulk_0)].contains(decode_utf8(ev[2]->Bulk_0)) {
                    1i64
                } else {
                    0i64
                },
            ) && final(backend).same_store(*old(backend)))
            &&& (is_sadd_request(ev) && ev.len() - 2 <= i32::MAX) ==> ({
                let key = decode_utf8(ev[1]->Bulk_0);
                let mems = member_texts(ev);
                let prev = if old(backend).sets().contains_key(key) {
                    old(backend).sets()[key]
                } else {
                    Set::<Seq<char>>::empty()
                };
                &&& frame_view(r) == FrameView::Int(new_member_count(prev, mems) as i64)
                &&& final(backend).sets() == old(backend).sets().insert(
                    key,
                    added_members(prev, mems),
                )
                &&& final(backend).strings() == old(backend).strings()
                &&& final(backend).hashes() == old(backend).hashes()
            })
            &&& (is_sadd_request(ev) && ev.len() - 2 > i32::MAX) ==> (r is SimpleError
                && final(backend).same_store(*old(backend)))
            &&& !(is_echo_request(ev) || is_sadd_request(ev) || is_sismember_request(ev)) ==> (r
                is SimpleError && final(backend).same_store(*old(backend)))
        }),
{
    let ghost ev = elems_view(frame.elems@);
    proof {
        // the three command names are pairwise distinct
        assert(echo_name()[0] != sadd_name()[0]);
        assert(echo_name() != sadd_name());
        assert(echo_name().len() != sismember_name().len());
        assert(echo_name() != sismember_name());
        assert(sadd_name().len() != sismember_name().len());
        assert(sadd_name() != sismember_name());
    }
    let echo_try = frame.clone();
    match Echo::try_from(echo_try) {
        Ok(cmd) => {
            proof {
                assert(!is_sadd_request(ev));
                assert(!is_sismember_request(ev));
            }
            return cmd.execute(&*backend);
        },
        Err(_) => {},
    }
    let sadd_try = frame.clone();
    match SAdd::try_from(sadd_try) {
        Ok(cmd) => {
            proof {
                assert(!is_sismember_request(ev));
            }
            if cmd.members.len() > i32::MAX as usize {
                return refusal_frame();
            }
            proof {
                assert(ev[1] matches FrameView::Bulk(d) && encode_utf8(cmd.key@) == d);
                vstd::utf8::encode_utf8_decode_utf8(cmd.key@);
                assert(cmd.key@ == decode_utf8(ev[1]->Bulk_0));
                assert forall|i: int|
                    0 <= i < cmd.members@.len() implies (#[trigger] cmd.members.deep_view()[i])
                    == member_texts(ev)[i] by {
                    assert(ev[i + 2] matches FrameView::Bulk(d2) && encode_utf8(cmd.members@[i]@)
                        == d2);
                    vstd::utf8::encode_utf8_decode_utf8(cmd.members@[i]@);
                    assert(cmd.members.deep_view()[i] == cmd.members@[i]@);
                    assert(member_texts(ev)[i] == decode_utf8(ev[i + 2]->Bulk_0));
                }
                assert(cmd.members.deep_view() =~= member_texts(ev));
            }
            return cmd.execute(backend);
        },
        Err(_) => {},
    }
    match SIsMember::try_from(frame) {
        Ok(cmd) => {
            proof {
                assert(ev[1] matches FrameView::Bulk(d) && encode_utf8(cmd.key@) == d);
                vstd::utf8::encode_utf8_decode_utf8(cmd.key@);
                assert(cmd.key@ == decode_utf8(ev[1]->Bulk_0));
                assert(ev[2] matches FrameView::Bulk(d) && encode_utf8(cmd.member@) == d);
                vstd::utf8::encode_utf8_decode_utf8(cmd.member@);
                assert(cmd.member@ == decode_utf8(ev[2]->Bulk_0));
            }
            return cmd.execute(&*backend);
        },
        Err(_) => {},
    }
    refusal_frame()
}

} // verus!
