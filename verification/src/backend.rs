//! The in-memory store: a plain key/value mapping, a mapping of hashes, and
//! a mapping of ordered sets of byte-string members.
//!
//! Each container is an association vector; every operation's contract is
//! stated over `map_lookup` / `map_put` (for frames) and their analogues for
//! hashes and sets, so that a reader can see exactly which entry each
//! command reads or writes.

use vstd::prelude::*;

use crate::resp::frame::RespFrame;
use crate::resp::frame::RespMap;
use crate::resp::frame::bytes_eq;
use crate::resp::frame::clone_bytes;
use crate::resp::frame::entries_view;
use crate::resp::wire::FrameV;
use crate::resp::wire::map_lookup;
use crate::resp::wire::map_put;

verus! {

// ---------------------------------------------------------------------------
// views and spec-level operations
// ---------------------------------------------------------------------------

/// View of a vector of byte vectors.
pub open spec fn vecs_view(s: Seq<Vec<u8>>) -> Seq<Seq<u8>> {
    s.map_values(|v: Vec<u8>| v@)
}

/// View of the hash container: key to inner entry sequence.
pub open spec fn hashes_view(s: Seq<(Vec<u8>, RespMap)>) -> Seq<(Seq<u8>, Seq<(Seq<u8>, FrameV)>)> {
    s.map_values(|p: (Vec<u8>, RespMap)| (p.0@, entries_view(p.1.0@)))
}

/// View of the set container: key to member sequence.
pub open spec fn sets_view(s: Seq<(Vec<u8>, Vec<Vec<u8>>)>) -> Seq<(Seq<u8>, Seq<Seq<u8>>)> {
    s.map_values(|p: (Vec<u8>, Vec<Vec<u8>>)| (p.0@, vecs_view(p.1@)))
}

/// Hash stored under key `k`, by first match.
pub open spec fn hash_lookup(m: Seq<(Seq<u8>, Seq<(Seq<u8>, FrameV)>)>, k: Seq<u8>) -> Option<
    Seq<(Seq<u8>, FrameV)>,
>
    decreases m.len(),
{
    if m.len() == 0 {
        None
    } else if m[0].0 == k {
        Some(m[0].1)
    } else {
        hash_lookup(m.skip(1), k)
    }
}

/// Member sequence stored under key `k`, by first match.
pub open spec fn set_lookup(m: Seq<(Seq<u8>, Seq<Seq<u8>>)>, k: Seq<u8>) -> Option<Seq<Seq<u8>>>
    decreases m.len(),
{
    if m.len() == 0 {
        None
    } else if m[0].0 == k {
        Some(m[0].1)
    } else {
        set_lookup(m.skip(1), k)
    }
}

/// Writes field `f` of the hash at key `k`, creating the hash if absent.
pub open spec fn hash_put(
    m: Seq<(Seq<u8>, Seq<(Seq<u8>, FrameV)>)>,
    k: Seq<u8>,
    f: Seq<u8>,
    v: FrameV,
) -> Seq<(Seq<u8>, Seq<(Seq<u8>, FrameV)>)>
    decreases m.len(),
{
    if m.len() == 0 {
        seq![(k, map_put(Seq::empty(), f, v))]
    } else if m[0].0 == k {
        seq![(k, map_put(m[0].1, f, v))] + m.skip(1)
    } else {
        seq![m[0]] + hash_put(m.skip(1), k, f, v)
    }
}

/// Replaces the member sequence at key `k`, creating the entry if absent.
pub open spec fn set_put(m: Seq<(Seq<u8>, Seq<Seq<u8>>)>, k: Seq<u8>, ms: Seq<Seq<u8>>) -> Seq<
    (Seq<u8>, Seq<Seq<u8>>),
>
    decreases m.len(),
{
    if m.len() == 0 {
        seq![(k, ms)]
    } else if m[0].0 == k {
        seq![(k, ms)] + m.skip(1)
    } else {
        seq![m[0]] + set_put(m.skip(1), k, ms)
    }
}

/// Adds members in order, skipping those already present.
pub open spec fn members_add(cur: Seq<Seq<u8>>, ms: Seq<Seq<u8>>) -> Seq<Seq<u8>>
    decreases ms.len(),
{
    if ms.len() == 0 {
        cur
    } else {
        let next = if cur.contains(ms[0]) {
            cur
        } else {
            cur.push(ms[0])
        };
        members_add(next, ms.drop_first())
    }
}

/// How many of the members were not yet present when added in order.
pub open spec fn members_added(cur: Seq<Seq<u8>>, ms: Seq<Seq<u8>>) -> int
    decreases ms.len(),
{
    if ms.len() == 0 {
        0
    } else {
        let next = if cur.contains(ms[0]) {
            cur
        } else {
            cur.push(ms[0])
        };
        (if cur.contains(ms[0]) {
            0int
        } else {
            1int
        }) + members_added(next, ms.drop_first())
    }
}

/// One-step unfolding of `members_add` / `members_added` over a prefix.
pub proof fn lemma_members_take(cur: Seq<Seq<u8>>, ms: Seq<Seq<u8>>, j: int)
    requires
        0 <= j < ms.len(),
    ensures
        members_add(cur, ms.take(j + 1)) == (if members_add(cur, ms.take(j)).contains(ms[j]) {
            members_add(cur, ms.take(j))
        } else {
            members_add(cur, ms.take(j)).push(ms[j])
        }),
        members_added(cur, ms.take(j + 1)) == members_added(cur, ms.take(j)) + (if members_add(
            cur,
            ms.take(j),
        ).contains(ms[j]) {
            0int
        } else {
            1int
        }),
    decreases j,
{
    if j == 0 {
        assert(ms.take(1) =~= seq![ms[0]]);
        assert(ms.take(0) =~= Seq::<Seq<u8>>::empty());
        assert(ms.take(1).drop_first() =~= Seq::<Seq<u8>>::empty());
        assert(members_add(cur, ms.take(0)) == cur);
        assert(members_added(cur, ms.take(0)) == 0);
        let next = if cur.contains(ms[0]) {
            cur
        } else {
            cur.push(ms[0])
        };
        assert(members_add(cur, ms.take(1)) == members_add(next, ms.take(1).drop_first()));
        assert(members_add(next, Seq::<Seq<u8>>::empty()) == next);
        assert(members_added(next, Seq::<Seq<u8>>::empty()) == 0);
    } else {
        let cur2 = if cur.contains(ms[0]) {
            cur
        } else {
            cur.push(ms[0])
        };
        lemma_members_take(cur2, ms.drop_first(), j - 1);
        assert(ms.take(j + 1)[0] == ms[0]);
        assert(ms.take(j)[0] == ms[0]);
        assert(ms.take(j + 1).drop_first() =~= ms.drop_first().take(j));
        assert(ms.take(j).drop_first() =~= ms.drop_first().take(j - 1));
        assert(ms.drop_first()[j - 1] == ms[j]);
        assert(members_add(cur, ms.take(j + 1)) == members_add(cur2, ms.drop_first().take(j)));
        assert(members_add(cur, ms.take(j)) == members_add(cur2, ms.drop_first().take(j - 1)));
        assert(members_added(cur, ms.take(j + 1)) == (if cur.contains(ms[0]) {
            0int
        } else {
            1int
        }) + members_added(cur2, ms.drop_first().take(j)));
        assert(members_added(cur, ms.take(j)) == (if cur.contains(ms[0]) {
            0int
        } else {
            1int
        }) + members_added(cur2, ms.drop_first().take(j - 1)));
    }
}

/// Appending members never removes any, so the count of fresh members is
/// the growth in length.
pub proof fn lemma_members_added_len(cur: Seq<Seq<u8>>, ms: Seq<Seq<u8>>)
    ensures
        members_add(cur, ms).len() == cur.len() + members_added(cur, ms),
        0 <= members_added(cur, ms) <= ms.len(),
    decreases ms.len(),
{
    if ms.len() > 0 {
        let next = if cur.contains(ms[0]) {
            cur
        } else {
            cur.push(ms[0])
        };
        lemma_members_added_len(next, ms.drop_first());
    }
}

// ---------------------------------------------------------------------------
// the store
// ---------------------------------------------------------------------------

/// The shared store behind all connections: `kv` for plain values, `hkv`
/// for hashes, `skv` for sets.
#[derive(Debug)]
pub struct Backend {
    pub kv: RespMap,
    pub hkv: Vec<(Vec<u8>, RespMap)>,
    pub skv: Vec<(Vec<u8>, Vec<Vec<u8>>)>,
}

/// True when some member of `ms` equals `m`.
pub fn members_contain(ms: &Vec<Vec<u8>>, m: &Vec<u8>) -> (r: bool)
    ensures
        r <==> vecs_view(ms@).contains(m@),
{
    let n = ms.len();
    let mut i: usize = 0;
    while i < n
        invariant
            i <= n == ms@.len(),
            forall|j: int| 0 <= j < i ==> #[trigger] vecs_view(ms@)[j] != m@,
        decreases n - i,
    {
        if bytes_eq(&ms[i], m) {
            proof {
                assert(vecs_view(ms@)[i as int] == m@);
            }
            return true;
        }
        i = i + 1;
    }
    proof {
        assert(!vecs_view(ms@).contains(m@)) by {
            if vecs_view(ms@).contains(m@) {
                let j = choose|j: int|
                    0 <= j < vecs_view(ms@).len() && vecs_view(ms@)[j] == m@;
                assert(vecs_view(ms@)[j] != m@);
            }
        }
    }
    false
}

impl Backend {
    /// An empty store.
    pub fn new() -> (r: Backend)
        ensures
            r.kv@ == Seq::<(Seq<u8>, FrameV)>::empty(),
            hashes_view(r.hkv@) == Seq::<(Seq<u8>, Seq<(Seq<u8>, FrameV)>)>::empty(),
            sets_view(r.skv@) == Seq::<(Seq<u8>, Seq<Seq<u8>>)>::empty(),
    {
        let r = Backend { kv: RespMap::new(), hkv: Vec::new(), skv: Vec::new() };
        proof {
            assert(hashes_view(r.hkv@) =~= Seq::<(Seq<u8>, Seq<(Seq<u8>, FrameV)>)>::empty());
            assert(sets_view(r.skv@) =~= Seq::<(Seq<u8>, Seq<Seq<u8>>)>::empty());
        }
        r
    }

    /// Copy of the value stored at `key`, if any.
    pub fn get(&self, key: &Vec<u8>) -> (r: Option<RespFrame>)
        ensures
            match map_lookup(self.kv@, key@) {
                Option::Some(fv) => r is Some && r->0@ == fv,
                Option::None => r is None,
            },
    {
        self.kv.get(key)
    }

    /// Stores `value` at `key`, overwriting.
    pub fn set(&mut self, key: Vec<u8>, value: RespFrame)
        ensures
            final(self).kv@ == map_put(old(self).kv@, key@, value@),
            final(self).hkv@ == old(self).hkv@,
            final(self).skv@ == old(self).skv@,
    {
        self.kv.insert(key, value);
    }

    /// Copy of hash field `field` at `key`, if the hash and the field exist.
    pub fn hget(&self, key: &Vec<u8>, field: &Vec<u8>) -> (r: Option<RespFrame>)
        ensures
            match hash_lookup(hashes_view(self.hkv@), key@) {
                Option::Some(h) => (match map_lookup(h, field@) {
                    Option::Some(fv) => r is Some && r->0@ == fv,
                    Option::None => r is None,
                }),
                Option::None => r is None,
            },
    {
        let n = self.hkv.len();
        let mut i: usize = 0;
        proof {
            assert(hashes_view(self.hkv@).skip(0) =~= hashes_view(self.hkv@));
        }
        while i < n
            invariant
                i <= n == self.hkv@.len(),
                hash_lookup(hashes_view(self.hkv@), key@) == hash_lookup(
                    hashes_view(self.hkv@).skip(i as int),
                    key@,
                ),
            decreases n - i,
        {
            proof {
                assert(hashes_view(self.hkv@).skip(i as int)[0] == hashes_view(self.hkv@)[
                    i as int
                ]);
            }
            if bytes_eq(&self.hkv[i].0, key) {
                return self.hkv[i].1.get(field);
            }
            proof {
                assert(hashes_view(self.hkv@).skip(i as int).skip(1) =~= hashes_view(
                    self.hkv@,
                ).skip(i + 1));
            }
            i = i + 1;
        }
        proof {
            assert(hashes_view(self.hkv@).skip(n as int).len() == 0);
        }
        None
    }

    /// Writes `field` of the hash at `key`, creating the hash if absent.
    pub fn hset(&mut self, key: Vec<u8>, field: Vec<u8>, value: RespFrame)
        ensures
            hashes_view(final(self).hkv@) == hash_put(
                hashes_view(old(self).hkv@),
                key@,
                field@,
                value@,
            ),
            final(self).kv@ == old(self).kv@,
            final(self).skv@ == old(self).skv@,
    {
        let n = self.hkv.len();
        let mut i: usize = 0;
        while i < n
            invariant
                i <= n == self.hkv@.len(),
                self.hkv@ == old(self).hkv@,
                self.kv == old(self).kv,
                self.skv == old(self).skv,
                forall|j: int| 0 <= j < i ==> #[trigger] hashes_view(self.hkv@)[j].0 != key@,
            decreases n - i,
        {
            if bytes_eq(&self.hkv[i].0, &key) {
                let pair = self.hkv.remove(i);
                let (k0, mut m0) = pair;
                m0.insert(field, value);
                self.hkv.insert(i, (k0, m0));
                proof {
                    lemma_hash_put_hit(hashes_view(old(self).hkv@), key@, field@, value@, i as int);
                    assert(hashes_view(self.hkv@) =~= hashes_view(old(self).hkv@).update(
                        i as int,
                        (key@, map_put(hashes_view(old(self).hkv@)[i as int].1, field@, value@)),
                    ));
                }
                return ;
            }
            i = i + 1;
        }
        let mut m0 = RespMap::new();
        m0.insert(field, value);
        self.hkv.push((key, m0));
        proof {
            lemma_hash_put_miss(hashes_view(old(self).hkv@), key@, field@, value@);
            assert(hashes_view(self.hkv@) =~= hashes_view(old(self).hkv@).push(
                (key@, map_put(Seq::empty(), field@, value@)),
            ));
        }
    }

    /// Snapshot of the whole hash at `key`, if it exists.
    pub fn hgetall(&self, key: &Vec<u8>) -> (r: Option<RespMap>)
        ensures
            match hash_lookup(hashes_view(self.hkv@), key@) {
                Option::Some(h) => r is Some && r->0@ == h,
                Option::None => r is None,
            },
    {
        let n = self.hkv.len();
        let mut i: usize = 0;
        proof {
            assert(hashes_view(self.hkv@).skip(0) =~= hashes_view(self.hkv@));
        }
        while i < n
            invariant
                i <= n == self.hkv@.len(),
                hash_lookup(hashes_view(self.hkv@), key@) == hash_lookup(
                    hashes_view(self.hkv@).skip(i as int),
                    key@,
                ),
            decreases n - i,
        {
            proof {
                assert(hashes_view(self.hkv@).skip(i as int)[0] == hashes_view(self.hkv@)[
                    i as int
                ]);
            }
            if bytes_eq(&self.hkv[i].0, key) {
                let m = self.hkv[i].1.clone();
                return Some(m);
            }
            proof {
                assert(hashes_view(self.hkv@).skip(i as int).skip(1) =~= hashes_view(
                    self.hkv@,
                ).skip(i + 1));
            }
            i = i + 1;
        }
        proof {
            assert(hashes_view(self.hkv@).skip(n as int).len() == 0);
        }
        None
    }

    /// Requested fields of the hash at `key`; fields missing from the hash
    /// are absent from the result.
    pub fn hmget(&self, key: &Vec<u8>, fields: &Vec<Vec<u8>>) -> (r: RespMap)
        ensures
            r@ == collect_fields(
                match hash_lookup(hashes_view(self.hkv@), key@) {
                    Option::Some(h) => h,
                    Option::None => Seq::empty(),
                },
                vecs_view(fields@),
            ),
    {
        let inner: Option<RespMap> = self.hgetall(key);
        let ghost h = match hash_lookup(hashes_view(self.hkv@), key@) {
            Option::Some(h) => h,
            Option::None => Seq::<(Seq<u8>, FrameV)>::empty(),
        };
        let mut r = RespMap::new();
        let n = fields.len();
        let mut i: usize = 0;
        proof {
            assert(vecs_view(fields@).take(0) =~= Seq::<Seq<u8>>::empty());
        }
        while i < n
            invariant
                i <= n == fields@.len(),
                match inner {
                    Option::Some(m) => m@ == h,
                    Option::None => h == Seq::<(Seq<u8>, FrameV)>::empty(),
                },
                r@ == collect_fields(h, vecs_view(fields@).take(i as int)),
            decreases n - i,
        {
            proof {
                assert(vecs_view(fields@).take(i + 1).drop_last() =~= vecs_view(
                    fields@,
                ).take(i as int));
                assert(vecs_view(fields@).take(i + 1).last() == fields@[i as int]@);
            }
            match &inner {
                Option::Some(m) => {
                    match m.get(&fields[i]) {
                        Option::Some(f) => {
                            r.insert(clone_bytes(&fields[i]), f);
                        },
                        Option::None => {},
                    }
                },
                Option::None => {
                    proof {
                        assert(map_lookup(h, fields@[i as int]@) is None);
                    }
                },
            }
            i = i + 1;
        }
        proof {
            assert(vecs_view(fields@).take(n as int) =~= vecs_view(fields@));
        }
        r
    }

    /// Adds `members` to the set at `key` in order, creating the set if
    /// absent; returns how many members were not yet present.
    pub fn sadd(&mut self, key: Vec<u8>, members: Vec<Vec<u8>>) -> (r: i64)
        requires
            members@.len() <= 9223372036854775807,
        ensures
            sets_view(final(self).skv@) == set_put(
                sets_view(old(self).skv@),
                key@,
                members_add(old(self).set_members(key@), vecs_view(members@)),
            ),
            r == members_added(old(self).set_members(key@), vecs_view(members@)),
            final(self).kv@ == old(self).kv@,
            final(self).hkv@ == old(self).hkv@,
    {
        let ghost gkey = key@;
        let ghost cur0 = self.set_members(gkey);
        let n = self.skv.len();
        let mut idx: usize = 0;
        let mut found = false;
        while idx < n && !found
            invariant
                idx <= n == self.skv@.len(),
                self == old(self),
                gkey == key@,
                forall|j: int| 0 <= j < idx ==> #[trigger] sets_view(self.skv@)[j].0 != gkey,
                found ==> idx < n && sets_view(self.skv@)[idx as int].0 == gkey,
            decreases n - idx, (if found { 0int } else { 1int }),
        {
            if bytes_eq(&self.skv[idx].0, &key) {
                found = true;
            } else {
                idx = idx + 1;
            }
        }
        proof {
            if found {
                lemma_set_lookup_at(sets_view(self.skv@), gkey, idx as int);
            } else {
                lemma_set_lookup_none(sets_view(self.skv@), gkey);
            }
        }
        let (k0, mut ms): (Vec<u8>, Vec<Vec<u8>>) = if found {
            self.skv.remove(idx)
        } else {
            (key, Vec::new())
        };
        proof {
            assert(vecs_view(ms@) =~~= cur0);
            assert(k0@ == gkey);
        }
        let mut count: i64 = 0;
        let mn = members.len();
        let mut i: usize = 0;
        proof {
            assert(vecs_view(members@).take(0) =~= Seq::<Seq<u8>>::empty());
        }
        while i < mn
            invariant
                i <= mn == members@.len(),
                mn <= 9223372036854775807,
                vecs_view(ms@) == members_add(cur0, vecs_view(members@).take(i as int)),
                count == members_added(cur0, vecs_view(members@).take(i as int)),
                0 <= count <= i,
            decreases mn - i,
        {
            proof {
                lemma_members_take(cur0, vecs_view(members@), i as int);
                assert(vecs_view(members@)[i as int] == members@[i as int]@);
            }
            let m = clone_bytes(&members[i]);
            let ghost prev = vecs_view(ms@);
            if !members_contain(&ms, &m) {
                ms.push(m);
                proof {
                    assert(vecs_view(ms@) =~~= prev.push(members@[i as int]@));
                }
                count = count + 1;
            }
            i = i + 1;
        }
        proof {
            assert(vecs_view(members@).take(mn as int) =~= vecs_view(members@));
        }
        let ghost before_insert = self.skv@;
        self.skv.insert(idx, (k0, ms));
        proof {
            if found {
                lemma_set_put_hit(sets_view(old(self).skv@), gkey, vecs_view(ms@), idx as int);
                assert(sets_view(self.skv@) =~~= sets_view(old(self).skv@).update(
                    idx as int,
                    (gkey, vecs_view(ms@)),
                ));
            } else {
                lemma_set_put_miss(sets_view(old(self).skv@), gkey, vecs_view(ms@));
                assert(sets_view(self.skv@) =~~= sets_view(old(self).skv@).push(
                    (gkey, vecs_view(ms@)),
                ));
            }
        }
        count
    }

    /// 1 when `member` is in the set at `key`, else 0 (also when the key is
    /// absent).
    pub fn is_member(&self, key: Vec<u8>, member: Vec<u8>) -> (r: i64)
        ensures
            r == (match set_lookup(sets_view(self.skv@), key@) {
                Option::Some(ms) => if ms.contains(member@) {
                    1int
                } else {
                    0int
                },
                Option::None => 0int,
            }),
    {
        let n = self.skv.len();
        let mut i: usize = 0;
        proof {
            assert(sets_view(self.skv@).skip(0) =~= sets_view(self.skv@));
        }
        while i < n
            invariant
                i <= n == self.skv@.len(),
                set_lookup(sets_view(self.skv@), key@) == set_lookup(
                    sets_view(self.skv@).skip(i as int),
                    key@,
                ),
            decreases n - i,
        {
            proof {
                assert(sets_view(self.skv@).skip(i as int)[0] == sets_view(self.skv@)[
                    i as int
                ]);
            }
            if bytes_eq(&self.skv[i].0, &key) {
                if members_contain(&self.skv[i].1, &member) {
                    return 1;
                } else {
                    return 0;
                }
            }
            proof {
                assert(sets_view(self.skv@).skip(i as int).skip(1) =~= sets_view(
                    self.skv@,
                ).skip(i + 1));
            }
            i = i + 1;
        }
        proof {
            assert(sets_view(self.skv@).skip(n as int).len() == 0);
        }
        0
    }

    /// The member sequence at `key`, or empty when absent.
    pub open spec fn set_members(&self, k: Seq<u8>) -> Seq<Seq<u8>> {
        match set_lookup(sets_view(self.skv@), k) {
            Option::Some(ms) => ms,
            Option::None => Seq::empty(),
        }
    }
}

/// Fields of `inner` named by `fs`, in request order, missing ones omitted.
pub open spec fn collect_fields(inner: Seq<(Seq<u8>, FrameV)>, fs: Seq<Seq<u8>>) -> Seq<
    (Seq<u8>, FrameV),
>
    decreases fs.len(),
{
    if fs.len() == 0 {
        Seq::empty()
    } else {
        let rest = collect_fields(inner, fs.drop_last());
        match map_lookup(inner, fs.last()) {
            Option::Some(v) => map_put(rest, fs.last(), v),
            Option::None => rest,
        }
    }
}

/// A first-match hit at `i` (no earlier key equal) makes the lookup return
/// entry `i`.
proof fn lemma_set_lookup_at(m: Seq<(Seq<u8>, Seq<Seq<u8>>)>, k: Seq<u8>, i: int)
    requires
        0 <= i < m.len(),
        m[i].0 == k,
        forall|j: int| 0 <= j < i ==> m[j].0 != k,
    ensures
        set_lookup(m, k) == Some(m[i].1),
    decreases i,
{
    if i > 0 {
        lemma_set_lookup_at(m.skip(1), k, i - 1);
    }
}

/// No key match anywhere: the lookup is `None`.
proof fn lemma_set_lookup_none(m: Seq<(Seq<u8>, Seq<Seq<u8>>)>, k: Seq<u8>)
    requires
        forall|j: int| 0 <= j < m.len() ==> m[j].0 != k,
    ensures
        set_lookup(m, k) == None::<Seq<Seq<u8>>>,
    decreases m.len(),
{
    if m.len() > 0 {
        lemma_set_lookup_none(m.skip(1), k);
    }
}

/// `set_put` on a sequence whose first match for `k` is at `i` updates in
/// place.
proof fn lemma_set_put_hit(m: Seq<(Seq<u8>, Seq<Seq<u8>>)>, k: Seq<u8>, ms: Seq<Seq<u8>>, i: int)
    requires
        0 <= i < m.len(),
        m[i].0 == k,
        forall|j: int| 0 <= j < i ==> m[j].0 != k,
    ensures
        set_put(m, k, ms) =~~= m.update(i, (k, ms)),
    decreases i,
{
    if i == 0 {
        assert(set_put(m, k, ms) =~~= seq![(k, ms)] + m.skip(1));
    } else {
        lemma_set_put_hit(m.skip(1), k, ms, i - 1);
        assert(set_put(m, k, ms) =~~= seq![m[0]] + set_put(m.skip(1), k, ms));
        assert(seq![m[0]] + m.skip(1).update(i - 1, (k, ms)) =~~= m.update(i, (k, ms)));
    }
}

/// `set_put` with an absent key appends.
proof fn lemma_set_put_miss(m: Seq<(Seq<u8>, Seq<Seq<u8>>)>, k: Seq<u8>, ms: Seq<Seq<u8>>)
    requires
        forall|j: int| 0 <= j < m.len() ==> m[j].0 != k,
    ensures
        set_put(m, k, ms) =~~= m.push((k, ms)),
    decreases m.len(),
{
    if m.len() == 0 {
        assert(set_put(m, k, ms) =~~= m.push((k, ms)));
    } else {
        lemma_set_put_miss(m.skip(1), k, ms);
        assert(set_put(m, k, ms) =~~= seq![m[0]] + m.skip(1).push((k, ms)));
        assert(seq![m[0]] + m.skip(1).push((k, ms)) =~~= m.push((k, ms)));
    }
}

/// `hash_put` on a sequence whose first match for `k` is at `i` updates in
/// place.
proof fn lemma_hash_put_hit(
    m: Seq<(Seq<u8>, Seq<(Seq<u8>, FrameV)>)>,
    k: Seq<u8>,
    f: Seq<u8>,
    v: FrameV,
    i: int,
)
    requires
        0 <= i < m.len(),
        m[i].0 == k,
        forall|j: int| 0 <= j < i ==> m[j].0 != k,
    ensures
        hash_put(m, k, f, v) =~~= m.update(i, (k, map_put(m[i].1, f, v))),
    decreases i,
{
    if i == 0 {
        assert(hash_put(m, k, f, v) =~~= seq![(k, map_put(m[0].1, f, v))] + m.skip(1));
    } else {
        lemma_hash_put_hit(m.skip(1), k, f, v, i - 1);
        assert(hash_put(m, k, f, v) =~~= seq![m[0]] + hash_put(m.skip(1), k, f, v));
        assert(seq![m[0]] + m.skip(1).update(i - 1, (k, map_put(m[i].1, f, v))) =~~= m.update(
            i,
            (k, map_put(m[i].1, f, v)),
        ));
    }
}

/// `hash_put` with an absent key appends a fresh one-field hash.
proof fn lemma_hash_put_miss(m: Seq<(Seq<u8>, Seq<(Seq<u8>, FrameV)>)>, k: Seq<u8>, f: Seq<u8>, v: FrameV)
    requires
        forall|j: int| 0 <= j < m.len() ==> m[j].0 != k,
    ensures
        hash_put(m, k, f, v) =~~= m.push((k, map_put(Seq::empty(), f, v))),
    decreases m.len(),
{
    if m.len() == 0 {
        assert(hash_put(m, k, f, v) =~~= m.push((k, map_put(Seq::empty(), f, v))));
    } else {
        lemma_hash_put_miss(m.skip(1), k, f, v);
        assert(hash_put(m, k, f, v) =~~= seq![m[0]] + hash_put(m.skip(1), k, f, v));
        assert(seq![m[0]] + m.skip(1).push((k, map_put(Seq::empty(), f, v))) =~~= m.push(
            (k, map_put(Seq::empty(), f, v)),
        ));
    }
}


/// Model state of the whole store.
pub struct StoreV {
    pub kv: Seq<(Seq<u8>, FrameV)>,
    pub hkv: Seq<(Seq<u8>, Seq<(Seq<u8>, FrameV)>)>,
    pub skv: Seq<(Seq<u8>, Seq<Seq<u8>>)>,
}

impl View for Backend {
    type V = StoreV;

    open spec fn view(&self) -> StoreV {
        StoreV { kv: self.kv@, hkv: hashes_view(self.hkv@), skv: sets_view(self.skv@) }
    }
}


/// What SADD's reply counts: adding members never loses anything, each
/// member of the result was stored before or requested now, the store
/// stays duplicate-free, and the count is exactly how much the set grew.
pub proof fn lemma_sadd_count(cur: Seq<Seq<u8>>, ms: Seq<Seq<u8>>)
    ensures
        members_add(cur, ms).len() == cur.len() + members_added(cur, ms),
        0 <= members_added(cur, ms) <= ms.len(),
        forall|x: Seq<u8>| members_add(cur, ms).contains(x) <==> cur.contains(x) || ms.contains(
            x,
        ),
        crate::resp::wire::distinct_seq(cur) ==> crate::resp::wire::distinct_seq(
            members_add(cur, ms),
        ),
    decreases ms.len(),
{
    lemma_members_added_len(cur, ms);
    if ms.len() == 0 {
    } else {
        let next = if cur.contains(ms[0]) {
            cur
        } else {
            cur.push(ms[0])
        };
        lemma_sadd_count(next, ms.drop_first());
        assert forall|x: Seq<u8>| members_add(cur, ms).contains(x) <==> cur.contains(x)
            || ms.contains(x) by {
            if next.contains(x) && !cur.contains(x) {
                let j = choose|j: int| 0 <= j < next.len() && next[j] == x;
                assert(x == ms[0]);
            }
            if cur.contains(x) {
                let j = choose|j: int| 0 <= j < cur.len() && cur[j] == x;
                assert(next[j] == x);
                assert(next.contains(x));
            }
            if ms.contains(x) {
                let j = choose|j: int| 0 <= j < ms.len() && ms[j] == x;
                if j == 0 {
                    if cur.contains(ms[0]) {
                    } else {
                        assert(next[next.len() - 1] == x);
                        assert(next.contains(x));
                    }
                } else {
                    assert(ms.drop_first()[j - 1] == x);
                    assert(ms.drop_first().contains(x));
                }
            }
            if ms.drop_first().contains(x) {
                let j = choose|j: int|
                    0 <= j < ms.drop_first().len() && ms.drop_first()[j] == x;
                assert(ms[j + 1] == x);
                assert(ms.contains(x));
            }
        }
        if crate::resp::wire::distinct_seq(cur) {
            assert(crate::resp::wire::distinct_seq(next)) by {
                if !cur.contains(ms[0]) {
                    assert forall|i: int, j: int| 0 <= i < j < next.len() implies next[i]
                        != next[j] by {
                        if j < next.len() - 1 {
                            assert(cur[i] != cur[j]);
                        } else {
                            assert(next[j] == ms[0]);
                            assert(next[i] == cur[i]);
                            assert(cur.contains(cur[i]));
                        }
                    }
                }
            }
        }
    }
}

/// How `hash_put` changes hash lookups: the written key reads back its old
/// hash (empty when absent) with the field updated; other keys are
/// untouched.
pub proof fn lemma_hash_put_lookup(
    m: Seq<(Seq<u8>, Seq<(Seq<u8>, FrameV)>)>,
    k: Seq<u8>,
    f: Seq<u8>,
    v: FrameV,
    k2: Seq<u8>,
)
    ensures
        hash_lookup(hash_put(m, k, f, v), k2) == if k2 == k {
            Some(
                map_put(
                    match hash_lookup(m, k) {
                        Option::Some(h) => h,
                        Option::None => Seq::empty(),
                    },
                    f,
                    v,
                ),
            )
        } else {
            hash_lookup(m, k2)
        },
    decreases m.len(),
{
    if m.len() == 0 {
        let r = hash_put(m, k, f, v);
        assert(r[0] == (k, map_put(Seq::empty(), f, v)));
        assert(r.skip(1) =~= Seq::<(Seq<u8>, Seq<(Seq<u8>, FrameV)>)>::empty());
        if k2 == k {
            assert(hash_lookup(r, k2) == Some(map_put(Seq::empty(), f, v)));
        } else {
            assert(hash_lookup(r, k2) == hash_lookup(r.skip(1), k2));
        }
    } else if m[0].0 == k {
        let r = hash_put(m, k, f, v);
        assert(r[0] == (k, map_put(m[0].1, f, v)));
        assert(r.skip(1) =~= m.skip(1));
        if k2 == k {
            assert(hash_lookup(r, k2) == Some(map_put(m[0].1, f, v)));
        } else {
            assert(hash_lookup(r, k2) == hash_lookup(m.skip(1), k2));
            assert(hash_lookup(m, k2) == hash_lookup(m.skip(1), k2));
        }
    } else {
        lemma_hash_put_lookup(m.skip(1), k, f, v, k2);
        let r = hash_put(m, k, f, v);
        assert(r[0] == m[0]);
        assert(r.skip(1) =~= hash_put(m.skip(1), k, f, v));
        if k2 == m[0].0 {
            assert(hash_lookup(r, k2) == Some(m[0].1));
            assert(hash_lookup(m, k2) == Some(m[0].1));
        } else {
            assert(hash_lookup(r, k2) == hash_lookup(hash_put(m.skip(1), k, f, v), k2));
            assert(hash_lookup(m, k2) == hash_lookup(m.skip(1), k2));
        }
    }
}

} // verus!


