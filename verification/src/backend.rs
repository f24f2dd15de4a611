//! The concurrent backend store: three independent keyspaces (strings,
//! hashes, sets) held in lock-striped concurrent maps from the `dashmap`
//! crate, so operations on unrelated keys never contend on one global lock.
//! Each keyspace is a thin typed wrapper around its map; the wrapper's
//! methods are trusted items whose contracts speak of the entries it holds.

use vstd::prelude::*;

use dashmap::{DashMap, DashSet};

use crate::resp::{elems_view, frame_view, lemma_elems_view_index, FrameView, RespFrame};

verus! {

broadcast use vstd::seq::group_seq_axioms, vstd::std_specs::vec::group_vec_axioms;

#[verifier::external_type_specification]
#[verifier::external_body]
#[verifier::reject_recursive_types(K)]
#[verifier::reject_recursive_types(V)]
#[verifier::reject_recursive_types(S)]
pub struct ExDashMap<K, V, S>(DashMap<K, V, S>);

#[verifier::external_type_specification]
#[verifier::external_body]
#[verifier::reject_recursive_types(K)]
#[verifier::reject_recursive_types(S)]
pub struct ExDashSet<K, S>(DashSet<K, S>);

/// The entries of a concurrent map from keys to frames.
pub uninterp spec fn frames_of(m: DashMap<String, RespFrame>) -> Map<Seq<char>, FrameView>;

/// The entries of the hash keyspace's map: one field map per key.
pub uninterp spec fn hashes_of(m: DashMap<String, DashMap<String, RespFrame>>) -> Map<
    Seq<char>,
    Map<Seq<char>, FrameView>,
>;

/// The entries of the set keyspace's map: one member set per key.
pub uninterp spec fn sets_of(m: DashMap<String, DashSet<String>>) -> Map<Seq<char>, Set<Seq<char>>>;

/// An empty string keyspace (or empty field map).
pub open spec fn empty_frames() -> Map<Seq<char>, FrameView> {
    Map::empty()
}

/// An empty hash keyspace.
pub open spec fn empty_hashes() -> Map<Seq<char>, Map<Seq<char>, FrameView>> {
    Map::empty()
}

/// An empty set keyspace.
pub open spec fn empty_sets() -> Map<Seq<char>, Set<Seq<char>>> {
    Map::empty()
}

/// A concurrent map from string keys to frames: the flat string keyspace,
/// and equally the snapshot of one key's field map from the hash keyspace.
#[derive(Debug)]
pub struct FrameMap(DashMap<String, RespFrame>);

impl View for FrameMap {
    type V = Map<Seq<char>, FrameView>;

    closed spec fn view(&self) -> Map<Seq<char>, FrameView> {
        frames_of(self.0)
    }
}

impl FrameMap {
    /// Relies on `dashmap::DashMap::new`: a new map holds no entries.
    #[verifier::external_body]
    fn new() -> (r: FrameMap)
        ensures
            r@ == empty_frames(),
    {
        FrameMap(DashMap::new())
    }

    /// Relies on `dashmap::DashMap::insert`: afterwards the key maps to the
    /// given value and every other entry is unchanged.
    #[verifier::external_body]
    fn insert(&mut self, key: String, value: RespFrame)
        ensures
            frames_of(final(self).0) == frames_of(old(self).0).insert(key@, value@),
    {
        self.0.insert(key, value);
    }

    /// Relies on `dashmap::DashMap::get`: a clone of the value under `key`,
    /// if one is present; the clone denotes the stored frame.
    #[verifier::external_body]
    pub fn get(&self, key: &str) -> (r: Option<RespFrame>)
        ensures
            r is Some <==> self@.contains_key(key@),
            r matches Some(f) ==> f@ == self@[key@],
    {
        match self.0.get(key) {
            Some(v) => Some(v.value().clone()),
            None => None,
        }
    }
}

/// The hash keyspace: a concurrent map from keys to concurrent field maps.
#[derive(Debug)]
pub struct HashSpace(DashMap<String, DashMap<String, RespFrame>>);

impl View for HashSpace {
    type V = Map<Seq<char>, Map<Seq<char>, FrameView>>;

    closed spec fn view(&self) -> Map<Seq<char>, Map<Seq<char>, FrameView>> {
        hashes_of(self.0)
    }
}

impl HashSpace {
    /// Relies on `dashmap::DashMap::new`: a new map holds no entries.
    #[verifier::external_body]
    fn new() -> (r: HashSpace)
        ensures
            r@ == empty_hashes(),
    {
        HashSpace(DashMap::new())
    }

    /// Relies on `dashmap::DashMap::get` on the outer and inner maps: a
    /// clone of the value under `key` and `field`, if both are present.
    #[verifier::external_body]
    fn get(&self, key: &str, field: &str) -> (r: Option<RespFrame>)
        ensures
            r is Some <==> (self@.contains_key(key@) && self@[key@].contains_key(field@)),
            r matches Some(f) ==> f@ == self@[key@][field@],
    {
        match self.0.get(key) {
            Some(inner) => match inner.get(field) {
                Some(v) => Some(v.value().clone()),
                None => None,
            },
            None => None,
        }
    }

    /// Relies on `dashmap::DashMap::contains_key`.
    #[verifier::external_body]
    fn contains(&self, key: &str) -> (r: bool)
        ensures
            r == self@.contains_key(key@),
    {
        self.0.contains_key(key)
    }

    /// Relies on `dashmap::Entry::or_default` and the inner map's `insert`:
    /// the field map for `key` is created if absent (exactly once even when
    /// two callers race) and `field` then maps to the value in it.
    #[verifier::external_body]
    fn set(&mut self, key: String, field: String, value: RespFrame)
        ensures
            hashes_of(final(self).0) == hashes_of(old(self).0).insert(
                key@,
                ({
                    let prev = if old(self)@.contains_key(key@) {
                        old(self)@[key@]
                    } else {
                        empty_frames()
                    };
                    prev.insert(field@, value@)
                }),
            ),
    {
        let inner = self.0.entry(key).or_default();
        inner.insert(field, value);
    }

    /// Relies on `dashmap::DashMap::get` and the inner map's `Clone`: a copy
    /// of the field map under `key`, whose entries denote the same frames.
    #[verifier::external_body]
    fn snapshot(&self, key: &str) -> (r: Option<FrameMap>)
        ensures
            r is Some <==> self@.contains_key(key@),
            r matches Some(c) ==> c@ == self@[key@],
    {
        match self.0.get(key) {
            Some(v) => Some(FrameMap(v.value().clone())),
            None => None,
        }
    }
}

/// The set keyspace: a concurrent map from keys to concurrent member sets.
#[derive(Debug)]
pub struct SetSpace(DashMap<String, DashSet<String>>);

impl View for SetSpace {
    type V = Map<Seq<char>, Set<Seq<char>>>;

    closed spec fn view(&self) -> Map<Seq<char>, Set<Seq<char>>> {
        sets_of(self.0)
    }
}

impl SetSpace {
    /// Relies on `dashmap::DashMap::new`: a new map holds no entries.
    #[verifier::external_body]
    fn new() -> (r: SetSpace)
        ensures
            r@ == empty_sets(),
    {
        SetSpace(DashMap::new())
    }

    /// Relies on `dashmap::Entry::or_default`: the member set for `key` is
    /// created empty if absent (exactly once even when two callers race),
    /// and every entry keeps its members.
    #[verifier::external_body]
    fn create(&mut self, key: String)
        ensures
            final(self)@ == old(self)@.insert(
                key@,
                ({
                    if old(self)@.contains_key(key@) {
                        old(self)@[key@]
                    } else {
                        Set::<Seq<char>>::empty()
                    }
                }),
            ),
    {
        self.0.entry(key).or_default();
    }

    /// Relies on `dashmap::Entry::or_default` and `dashmap::DashSet::insert`:
    /// the member joins the set under `key` (created if absent), and the
    /// result says whether it was genuinely new.
    #[verifier::external_body]
    fn add(&mut self, key: String, member: String) -> (r: bool)
        ensures
            ({
                let prev = if old(self)@.contains_key(key@) {
                    old(self)@[key@]
                } else {
                    Set::<Seq<char>>::empty()
                };
                r == !prev.contains(member@) && sets_of(final(self).0) == sets_of(old(self).0).insert(
                    key@,
                    prev.insert(member@),
                )
            }),
    {
        let set = self.0.entry(key).or_default();
        set.insert(member)
    }

    /// Relies on `dashmap::DashMap::get` and `dashmap::DashSet::contains`.
    #[verifier::external_body]
    fn has(&self, key: &str, member: &str) -> (r: bool)
        ensures
            r == (self@.contains_key(key@) && self@[key@].contains(member@)),
    {
        match self.0.get(key) {
            Some(s) => s.value().contains(member),
            None => false,
        }
    }
}

/// The three keyspaces. They are independent: a key may exist in all three
/// at once without conflict.
#[derive(Debug)]
pub struct BackendInner {
    pub smap: FrameMap,
    pub hmap: HashSpace,
    pub sset: SetSpace,
}

/// The process-wide store all connections share.
#[derive(Debug)]
pub struct Backend {
    inner: BackendInner,
}

impl Default for BackendInner {
    fn default() -> (r: BackendInner)
        ensures
            r.smap@ == empty_frames(),
            r.hmap@ == empty_hashes(),
            r.sset@ == empty_sets(),
    {
        BackendInner { smap: FrameMap::new(), hmap: HashSpace::new(), sset: SetSpace::new() }
    }
}

impl Default for Backend {
    fn default() -> (r: Backend)
        ensures
            r.strings() == empty_frames(),
            r.hashes() == empty_hashes(),
            r.sets() == empty_sets(),
    {
        Backend { inner: BackendInner::default() }
    }
}

/// The values found under the requested fields, in request order, with
/// absent fields silently omitted.
pub open spec fn hmget_found(h: Map<Seq<char>, FrameView>, fields: Seq<Seq<char>>) -> Seq<FrameView>
    decreases fields.len(),
{
    if fields.len() == 0 {
        Seq::empty()
    } else {
        let rest = hmget_found(h, fields.drop_last());
        if h.contains_key(fields.last()) {
            rest.push(h[fields.last()])
        } else {
            rest
        }
    }
}

/// The member set after adding each listed member in order.
pub open spec fn added_members(prev: Set<Seq<char>>, members: Seq<Seq<char>>) -> Set<Seq<char>>
    decreases members.len(),
{
    if members.len() == 0 {
        prev
    } else {
        added_members(prev, members.drop_last()).insert(members.last())
    }
}

/// How many of the listed members are genuinely new: not already present,
/// and not a duplicate of an earlier member of the same call.
pub open spec fn new_member_count(prev: Set<Seq<char>>, members: Seq<Seq<char>>) -> int
    decreases members.len(),
{
    if members.len() == 0 {
        0int
    } else {
        new_member_count(prev, members.drop_last()) + if added_members(
            prev,
            members.drop_last(),
        ).contains(members.last()) {
            0int
        } else {
            1int
        }
    }
}

/// Membership is idempotent: adding one member to a key's set counts it
/// once when it is new and zero when it is already present; adding it again
/// in a later call counts zero; and a duplicate within one call counts once,
/// not twice. The resulting set holds the member either way.
pub proof fn lemma_sadd_idempotent(prev: Set<Seq<char>>, m: Seq<char>)
    ensures
        !prev.contains(m) ==> new_member_count(prev, seq![m]) == 1,
        prev.contains(m) ==> new_member_count(prev, seq![m]) == 0,
        new_member_count(added_members(prev, seq![m]), seq![m]) == 0,
        !prev.contains(m) ==> new_member_count(prev, seq![m, m]) == 1,
        added_members(prev, seq![m]) == prev.insert(m),
        added_members(prev, seq![m, m]) == prev.insert(m),
        added_members(prev, seq![m]).contains(m),
{
    let s1 = seq![m];
    let s2 = seq![m, m];
    assert(s1.drop_last() =~= Seq::<Seq<char>>::empty());
    assert(s2.drop_last() =~= s1);
    assert(s1.last() == m);
    assert(s2.last() == m);
    assert(added_members(prev, Seq::<Seq<char>>::empty()) == prev);
    assert(added_members(prev, s1) == prev.insert(m));
    assert(prev.insert(m).insert(m) =~= prev.insert(m));
    assert(new_member_count(prev, Seq::<Seq<char>>::empty()) == 0);
    let p2 = prev.insert(m);
    assert(added_members(p2, Seq::<Seq<char>>::empty()) == p2);
    assert(new_member_count(p2, Seq::<Seq<char>>::empty()) == 0);
    assert(p2.contains(m));
    assert(new_member_count(p2, s1) == 0);
    assert(new_member_count(prev, s2) == new_member_count(prev, s1) + if added_members(
        prev,
        s1,
    ).contains(m) {
        0int
    } else {
        1int
    });
}

impl Backend {
    /// The string keyspace.
    pub closed spec fn strings(self) -> Map<Seq<char>, FrameView> {
        self.inner.smap@
    }

    /// The hash keyspace.
    pub closed spec fn hashes(self) -> Map<Seq<char>, Map<Seq<char>, FrameView>> {
        self.inner.hmap@
    }

    /// The set keyspace.
    pub closed spec fn sets(self) -> Map<Seq<char>, Set<Seq<char>>> {
        self.inner.sset@
    }

    /// The two stores hold the same entries in every keyspace.
    pub open spec fn same_store(self, other: Backend) -> bool {
        &&& self.strings() == other.strings()
        &&& self.hashes() == other.hashes()
        &&& self.sets() == other.sets()
    }

    /// A fresh store: all three keyspaces empty.
    pub fn new() -> (r: Self)
        ensures
            r.strings() == empty_frames(),
            r.hashes() == empty_hashes(),
            r.sets() == empty_sets(),
    {
        Backend::default()
    }

    /// String-space lookup: the value under `key`, or absent.
    pub fn get(&self, key: &str) -> (r: Option<RespFrame>)
        ensures
            r is Some <==> self.strings().contains_key(key@),
            r matches Some(f) ==> f@ == self.strings()[key@],
    {
        self.inner.smap.get(key)
    }

    /// String-space upsert. The hash and set keyspaces are untouched.
    pub fn set(&mut self, key: String, value: RespFrame)
        ensures
            final(self).strings() == old(self).strings().insert(key@, value@),
            final(self).hashes() == old(self).hashes(),
            final(self).sets() == old(self).sets(),
    {
        self.inner.smap.insert(key, value);
    }

    /// Hash-space lookup of one field under one key, or absent.
    pub fn hget(&self, key: &str, field: &str) -> (r: Option<RespFrame>)
        ensures
            r is Some <==> (self.hashes().contains_key(key@) && self.hashes()[key@].contains_key(
                field@,
            )),
            r matches Some(f) ==> f@ == self.hashes()[key@][field@],
    {
        self.inner.hmap.get(key, field)
    }

    /// Hash-space upsert: the inner field map is created lazily on first
    /// write to `key`. The string and set keyspaces are untouched.
    pub fn hset(&mut self, key: String, field: String, value: RespFrame)
        ensures
            final(self).hashes() == old(self).hashes().insert(
                key@,
                ({
                    let prev = if old(self).hashes().contains_key(key@) {
                        old(self).hashes()[key@]
                    } else {
                        empty_frames()
                    };
                    prev.insert(field@, value@)
                }),
            ),
            final(self).strings() == old(self).strings(),
            final(self).sets() == old(self).sets(),
    {
        self.inner.hmap.set(key, field, value);
    }

    /// A snapshot of one key's whole field map, or absent.
    pub fn hgetall(&self, key: &str) -> (r: Option<FrameMap>)
        ensures
            r is Some <==> self.hashes().contains_key(key@),
            r matches Some(c) ==> c@ == self.hashes()[key@],
    {
        self.inner.hmap.snapshot(key)
    }

    /// Echo is pure: the message comes back as an owned string.
    pub fn echo(&self, msg: &str) -> (r: String)
        ensures
            r@ == msg@,
    {
        msg.to_owned()
    }

    /// Hash-space lookup of several fields: the values found, in request
    /// order, with absent fields silently omitted; an absent key gives no
    /// result at all.
    pub fn hmget(&self, key: &str, fields: &[String]) -> (r: Option<Vec<RespFrame>>)
        ensures
            r is Some <==> self.hashes().contains_key(key@),
            r matches Some(v) ==> elems_view(v@) == hmget_found(
                self.hashes()[key@],
                fields.deep_view(),
            ),
    {
        if !self.inner.hmap.contains(key) {
            return None;
        }
        let ghost h = self.hashes()[key@];
        let ghost dv = fields.deep_view();
        let mut out: Vec<RespFrame> = Vec::new();
        let mut i: usize = 0;
        while i < fields.len()
            invariant
                i <= fields@.len(),
                dv == fields.deep_view(),
                dv.len() == fields@.len(),
                self.hashes().contains_key(key@),
                h == self.hashes()[key@],
                elems_view(out@) == hmget_found(h, dv.take(i as int)),
            decreases fields@.len() - i,
        {
            proof {
                assert(dv[i as int] == fields@[i as int]@);
                assert(dv.take(i + 1).drop_last() =~= dv.take(i as int));
                assert(dv.take(i + 1).last() == dv[i as int]);
            }
            let ghost out_pre = out@;
            match self.inner.hmap.get(key, fields[i].as_str()) {
                Some(f) => {
                    let ghost fv = frame_view(f);
                    out.push(f);
                    proof {
                        lemma_elems_view_index(out_pre);
                        lemma_elems_view_index(out@);
                        assert forall|j: int| 0 <= j < out@.len() implies elems_view(out@)[j]
                            == elems_view(out_pre).push(fv)[j] by {
                            if j < out_pre.len() {
                                assert(out@[j] == out_pre[j]);
                            } else {
                                assert(out@[j] == f);
                                assert(elems_view(out@)[j] == frame_view(out@[j]));
                            }
                        }
                        assert(elems_view(out@) =~= elems_view(out_pre).push(fv));
                        assert(elems_view(out@) =~= hmget_found(h, dv.take(i + 1)));
                    }
                },
                None => {
                    proof {
                        assert(elems_view(out@) =~= hmget_found(h, dv.take(i + 1)));
                    }
                },
            }
            i = i + 1;
        }
        proof {
            assert(dv.take(fields@.len() as int) =~= dv);
        }
        Some(out)
    }

    /// Set-space insert of each member in order; the member set for `key`
    /// is created lazily; returns how many members were genuinely new
    /// (already-present members and duplicates within the same call do not
    /// count). The string and hash keyspaces are untouched.
    pub fn sadd(&mut self, key: String, members: Vec<String>) -> (r: i32)
        requires
            members@.len() <= i32::MAX as int,
        ensures
            ({
                let prev = if old(self).sets().contains_key(key@) {
                    old(self).sets()[key@]
                } else {
                    Set::<Seq<char>>::empty()
                };
                r == new_member_count(prev, members.deep_view()) && final(self).sets() == old(
                    self,
                ).sets().insert(key@, added_members(prev, members.deep_view()))
            }),
            final(self).strings() == old(self).strings(),
            final(self).hashes() == old(self).hashes(),
    {
        let ghost prev = if old(self).sets().contains_key(key@) {
            old(self).sets()[key@]
        } else {
            Set::<Seq<char>>::empty()
        };
        let ghost base = old(self).sets();
        let ghost dv = members.deep_view();
        let first_key = key.clone();
        self.inner.sset.create(first_key);
        let mut count: i32 = 0;
        let mut i: usize = 0;
        while i < members.len()
            invariant
                i <= members@.len(),
                members@.len() <= i32::MAX as int,
                dv == members.deep_view(),
                dv.len() == members@.len(),
                0 <= count <= i,
                count == new_member_count(prev, dv.take(i as int)),
                self.inner.sset@ == base.insert(key@, added_members(prev, dv.take(i as int))),
                self.inner.smap@ == old(self).strings(),
                self.inner.hmap@ == old(self).hashes(),
            decreases members@.len() - i,
        {
            proof {
                assert(dv[i as int] == members@[i as int]@);
                assert(dv.take(i + 1).drop_last() =~= dv.take(i as int));
                assert(dv.take(i + 1).last() == dv[i as int]);
            }
            let step_key = key.clone();
            let member = members[i].clone();
            let was_new = self.inner.sset.add(step_key, member);
            proof {
                assert(self.inner.sset@ =~= base.insert(
                    key@,
                    added_members(prev, dv.take(i + 1)),
                ));
            }
            if was_new {
                count = count + 1;
            }
            i = i + 1;
        }
        proof {
            assert(dv.take(members@.len() as int) =~= dv);
        }
        count
    }

    /// Set-space membership: `Some(true)` when the key exists and holds the
    /// member, absent otherwise (an absent key and an absent member are not
    /// told apart).
    pub fn sismember(&self, key: &str, member: &str) -> (r: Option<bool>)
        ensures
            r == if self.sets().contains_key(key@) && self.sets()[key@].contains(member@) {
                Some(true)
            } else {
                None::<bool>
            },
    {
        if self.inner.sset.has(key, member) {
            Some(true)
        } else {
            None
        }
    }
}

} // verus!
