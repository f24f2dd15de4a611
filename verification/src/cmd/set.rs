//! The set commands: add members to a key's set, and test membership.

use vstd::prelude::*;

use vstd::utf8::{decode_utf8, encode_utf8, valid_utf8};

use super::{
    extract_args, head_is_name, utf8_to_string, validate_command, validate_multi_arg_command,
    CommandError,
};
use crate::backend::{added_members, new_member_count, Backend};
use crate::resp::{elems_view, frame_view, lemma_elems_view_index, FrameView, RespArray, RespFrame};

verus! {

broadcast use vstd::seq::group_seq_axioms, vstd::std_specs::vec::group_vec_axioms;

/// Add members to the set under a key.
#[derive(Debug)]
pub struct SAdd {
    pub key: String,
    pub members: Vec<String>,
}

/// Test whether a member is in the set under a key.
#[derive(Debug)]
pub struct SIsMember {
    pub key: String,
    pub member: String,
}

/// The canonical wire name of the set-add command.
pub open spec fn sadd_name() -> Seq<u8> {
    seq![115u8, 97u8, 100u8, 100u8]
}

/// The canonical wire name of the membership-test command.
pub open spec fn sismember_name() -> Seq<u8> {
    seq![115u8, 105u8, 115u8, 109u8, 101u8, 109u8, 98u8, 101u8, 114u8]
}

/// The bytes of `sadd_name`, built for comparison against a request head.
fn sadd_name_bytes() -> (r: Vec<u8>)
    ensures
        r@ == sadd_name(),
{
    let mut v: Vec<u8> = Vec::new();
    v.push(115);
    v.push(97);
    v.push(100);
    v.push(100);
    proof {
        assert(v@ =~= sadd_name());
    }
    v
}

/// The bytes of `sismember_name`, built for comparison against a request head.
fn sismember_name_bytes() -> (r: Vec<u8>)
    ensures
        r@ == sismember_name(),
{
    let mut v: Vec<u8> = Vec::new();
    v.push(115);
    v.push(105);
    v.push(115);
    v.push(109);
    v.push(101);
    v.push(109);
    v.push(98);
    v.push(101);
    v.push(114);
    proof {
        assert(v@ =~= sismember_name());
    }
    v
}

/// Every element from index `from` on is a bulk string holding valid text.
pub open spec fn all_text_bulks(elems: Seq<FrameView>, from: int) -> bool {
    forall|i: int|
        from <= i < elems.len() ==> ((#[trigger] elems[i]) matches FrameView::Bulk(d) && valid_utf8(
            d,
        ))
}

/// A well-formed set-add request: the name, a key, and at least one member,
/// each a text bulk string.
pub open spec fn is_sadd_request(elems: Seq<FrameView>) -> bool {
    &&& elems.len() >= 3
    &&& head_is_name(elems, sadd_name())
    &&& all_text_bulks(elems, 1)
}

/// A well-formed membership-test request: the name, a key and a member,
/// both text bulk strings.
pub open spec fn is_sismember_request(elems: Seq<FrameView>) -> bool {
    &&& elems.len() == 3
    &&& head_is_name(elems, sismember_name())
    &&& all_text_bulks(elems, 1)
}

/// The members of a set-add request, as decoded text, in request order.
pub open spec fn member_texts(elems: Seq<FrameView>) -> Seq<Seq<char>> {
    Seq::new((elems.len() - 2) as nat, |i: int| decode_utf8(elems[i + 2]->Bulk_0))
}

impl SAdd {
    /// Builds the command from a decoded array: name, key, then one or more
    /// members, all text bulk strings; anything else fails closed.
    pub fn try_from(v: RespArray) -> (r: Result<SAdd, CommandError>)
        ensures
            r is Ok <==> is_sadd_request(elems_view(v.elems@)),
            r matches Ok(c) ==> ({
                let elems = elems_view(v.elems@);
                &&& elems[1] matches FrameView::Bulk(d) && encode_utf8(c.key@) == d
                &&& c.members@.len() == elems.len() - 2
                &&& forall|i: int|
                    0 <= i < c.members@.len() ==> (elems[i + 2] matches FrameView::Bulk(d)
                        && encode_utf8((#[trigger] c.members@[i])@) == d)
            }),
    {
        let ghost vf = v.elems@;
        let ghost evs = elems_view(vf);
        proof {
            lemma_elems_view_index(vf);
        }
        let name = sadd_name_bytes();
        match validate_multi_arg_command(&v, name.as_slice(), 3) {
            Err(e) => Err(e),
            Ok(_) => {
                let mut args = match extract_args(v, 1) {
                    Ok(a) => a,
                    Err(e) => {
                        return Err(e);
                    },
                };
                proof {
                    assert(args@[0] == vf[1]);
                    assert(evs[1] == frame_view(vf[1]));
                }
                let first = args.remove(0);
                let key: String = match first {
                    RespFrame::BulkString(b) => {
                        if b.is_null {
                            proof {
                                assert(!(evs[1] matches FrameView::Bulk(d) && valid_utf8(d)));
                            }
                            return Err(CommandError::InvalidArgument("invalid key".to_owned()));
                        }
                        match utf8_to_string(b.data) {
                            Some(s) => {
                                proof {
                                    assert(evs[1] matches FrameView::Bulk(d) && valid_utf8(d)
                                        && encode_utf8(s@) == d);
                                }
                                s
                            },
                            None => {
                                proof {
                                    assert(!(evs[1] matches FrameView::Bulk(d) && valid_utf8(d)));
                                }
                                return Err(
                                    CommandError::InvalidArgument("key is not text".to_owned()),
                                );
                            },
                        }
                    },
                    _ => {
                        proof {
                            assert(!(evs[1] matches FrameView::Bulk(d) && valid_utf8(d)));
                        }
                        return Err(CommandError::InvalidArgument("invalid key".to_owned()));
                    },
                };
                let ghost gkey = key@;
                proof {
                    assert(args@ =~= vf.skip(2));
                    assert(evs[1] matches FrameView::Bulk(d) && valid_utf8(d) && encode_utf8(gkey)
                        == d);
                }
                let mut members: Vec<String> = Vec::new();
                while args.len() > 0
                    invariant
                        vf == v.elems@,
                        evs == elems_view(vf),
                        evs.len() == vf.len(),
                        forall|j: int| #![auto] 0 <= j < vf.len() ==> evs[j] == frame_view(vf[j]),
                        vf.len() >= 3,
                        head_is_name(evs, sadd_name()),
                        evs[1] matches FrameView::Bulk(d) && valid_utf8(d) && encode_utf8(gkey)
                            == d,
                        members@.len() + 2 + args@.len() == vf.len(),
                        args@ == vf.skip(2 + members@.len() as int),
                        forall|i: int|
                            2 <= i < 2 + members@.len() ==> ((#[trigger] evs[i])
                                matches FrameView::Bulk(d) && valid_utf8(d) && encode_utf8(
                                members@[i - 2]@,
                            ) == d),
                    decreases args@.len(),
                {
                    let ghost k = members@.len() as int;
                    proof {
                        assert(args@[0] == vf[2 + k]);
                        assert(evs[2 + k] == frame_view(vf[2 + k]));
                    }
                    let a = args.remove(0);
                    match a {
                        RespFrame::BulkString(b) => {
                            if b.is_null {
                                proof {
                                    assert(!(evs[2 + k] matches FrameView::Bulk(d) && valid_utf8(
                                        d,
                                    )));
                                    assert(1 <= 2 + k < evs.len());
                                    assert(!all_text_bulks(evs, 1));
                                    assert(!is_sadd_request(elems_view(v.elems@)));
                                }
                                return Err(
                                    CommandError::InvalidArgument("invalid member".to_owned()),
                                );
                            }
                            match utf8_to_string(b.data) {
                                Some(s) => {
                                    proof {
                                        assert(evs[2 + k] matches FrameView::Bulk(d) && valid_utf8(
                                            d,
                                        ) && encode_utf8(s@) == d);
                                    }
                                    members.push(s);
                                    proof {
                                        assert(args@ =~= vf.skip(2 + members@.len() as int));
                                    }
                                },
                                None => {
                                    proof {
                                        assert(!(evs[2 + k] matches FrameView::Bulk(d)
                                            && valid_utf8(d)));
                                        assert(1 <= 2 + k < evs.len());
                                        assert(!all_text_bulks(evs, 1));
                                        assert(!is_sadd_request(elems_view(v.elems@)));
                                    }
                                    return Err(
                                        CommandError::InvalidArgument(
                                            "member is not text".to_owned(),
                                        ),
                                    );
                                },
                            }
                        },
                        _ => {
                            proof {
                                assert(!(evs[2 + k] matches FrameView::Bulk(d) && valid_utf8(d)));
                                assert(1 <= 2 + k < evs.len());
                                assert(!all_text_bulks(evs, 1));
                                assert(!is_sadd_request(elems_view(v.elems@)));
                            }
                            return Err(CommandError::InvalidArgument("invalid member".to_owned()));
                        },
                    }
                }
                proof {
                    assert(members@.len() + 2 == evs.len());
                    assert forall|i: int|
                        1 <= i < evs.len() implies ((#[trigger] evs[i]) matches FrameView::Bulk(d)
                        && valid_utf8(d)) by {
                        if i >= 2 {
                            assert(2 <= i < 2 + members@.len());
                        }
                    }
                    assert forall|i: int|
                        0 <= i < members@.len() implies (evs[i + 2] matches FrameView::Bulk(d)
                        && encode_utf8((#[trigger] members@[i])@) == d) by {
                        assert(2 <= i + 2 < 2 + members@.len());
                        assert(evs[i + 2] matches FrameView::Bulk(d) && valid_utf8(d)
                            && encode_utf8(members@[(i + 2) - 2]@) == d);
                    }
                }
                Ok(SAdd { key, members })
            },
        }
    }

    /// One backend operation: adds the members to the key's set and answers
    /// the count of genuinely new ones as an integer frame.
    pub fn execute(self, backend: &mut Backend) -> (r: RespFrame)
        requires
            self.members@.len() <= i32::MAX as int,
        ensures
            ({
                let prev = if old(backend).sets().contains_key(self.key@) {
                    old(backend).sets()[self.key@]
                } else {
                    Set::<Seq<char>>::empty()
                };
                &&& frame_view(r) == FrameView::Int(
                    new_member_count(prev, self.members.deep_view()) as i64,
                )
                &&& final(backend).sets() == old(backend).sets().insert(
                    self.key@,
                    added_members(prev, self.members.deep_view()),
                )
            }),
            final(backend).strings() == old(backend).strings(),
            final(backend).hashes() == old(backend).hashes(),
    {
        let count = backend.sadd(self.key, self.members);
        RespFrame::Integer(count as i64)
    }
}

impl SIsMember {
    /// Builds the command from a decoded array: name, key and member, both
    /// text bulk strings; anything else fails closed.
    pub fn try_from(v: RespArray) -> (r: Result<SIsMember, CommandError>)
        ensures
            r is Ok <==> is_sismember_request(elems_view(v.elems@)),
            r matches Ok(c) ==> ({
                let elems = elems_view(v.elems@);
                &&& elems[1] matches FrameView::Bulk(d) && encode_utf8(c.key@) == d
                &&& elems[2] matches FrameView::Bulk(d) && encode_utf8(c.member@) == d
            }),
    {
        let ghost vf = v.elems@;
        let ghost evs = elems_view(vf);
        proof {
            lemma_elems_view_index(vf);
        }
        let name = sismember_name_bytes();
        match validate_command(&v, name.as_slice(), 2) {
            Err(e) => Err(e),
            Ok(_) => {
                let mut args = match extract_args(v, 1) {
                    Ok(a) => a,
                    Err(e) => {
                        return Err(e);
                    },
                };
                proof {
                    assert(args@[0] == vf[1]);
                    assert(args@[1] == vf[2]);
                    assert(evs[1] == frame_view(vf[1]));
                    assert(evs[2] == frame_view(vf[2]));
                }
                let first = args.remove(0);
                let key: String = match first {
                    RespFrame::BulkString(b) => {
                        if b.is_null {
                            return Err(CommandError::InvalidArgument("invalid key".to_owned()));
                        }
                        match utf8_to_string(b.data) {
                            Some(s) => s,
                            None => {
                                return Err(
                                    CommandError::InvalidArgument("key is not text".to_owned()),
                                );
                            },
                        }
                    },
                    _ => {
                        return Err(CommandError::InvalidArgument("invalid key".to_owned()));
                    },
                };
                proof {
                    assert(args@[0] == vf[2]);
                }
                let second = args.remove(0);
                match second {
                    RespFrame::BulkString(b) => {
                        if b.is_null {
                            return Err(CommandError::InvalidArgument("invalid member".to_owned()));
                        }
                        match utf8_to_string(b.data) {
                            Some(member) => Ok(SIsMember { key, member }),
                            None => Err(
                                CommandError::InvalidArgument("member is not text".to_owned()),
                            ),
                        }
                    },
                    _ => Err(CommandError::InvalidArgument("invalid member".to_owned())),
                }
            },
        }
    }

    /// One backend operation: answers an integer frame, one when the key's
    /// set holds the member, zero when it does not or the key is absent.
    pub fn execute(self, backend: &Backend) -> (r: RespFrame)
        ensures
            frame_view(r) == FrameView::Int(
                if backend.sets().contains_key(self.key@) && backend.sets()[self.key@].contains(
                    self.member@,
                ) {
                    1i64
                } else {
                    0i64
                },
            ),
    {
        match backend.sismember(self.key.as_str(), self.member.as_str()) {
            Some(v) => {
                if v {
                    RespFrame::Integer(1)
                } else {
                    RespFrame::Integer(0)
                }
            },
            None => RespFrame::Integer(0),
        }
    }
}

} // verus!
