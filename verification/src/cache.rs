//! The store: a flat mapping from byte-string key to byte-string
//! value, with the four storage operations and the handler that
//! dispatches a decoded command against them.
//!
//! The model of a store is a [`StoreModel`]: the mapping itself and
//! the enumeration order of its keys. The order is what `Keys`
//! pagination pages over; it is the insertion order and is stable
//! across reads within one server lifetime.

use vstd::prelude::*;
use vstd::slice::{slice_index_get, slice_to_vec};

use crate::proto::{CmdModel, RequestCommand};

pub mod middlewares;

verus! {

/// Mathematical model of a store: the key-value mapping and the
/// order in which keys enumerate.
pub struct StoreModel {
    pub map: Map<Seq<u8>, Seq<u8>>,
    pub order: Seq<Seq<u8>>,
}

/// A store model is consistent when its key order lists each key of
/// the mapping exactly once, and nothing else.
pub open spec fn model_wf(s: StoreModel) -> bool {
    &&& forall|i: int, j: int| 0 <= i < j < s.order.len() ==> s.order[i] != s.order[j]
    &&& forall|i: int| 0 <= i < s.order.len() ==> s.map.contains_key(#[trigger] s.order[i])
    &&& forall|k: Seq<u8>|
        #[trigger] s.map.contains_key(k) ==> exists|i: int|
            0 <= i < s.order.len() && s.order[i] == k
}

/// The position of `k` in an order that contains it.
pub open spec fn spec_key_index(order: Seq<Seq<u8>>, k: Seq<u8>) -> int {
    choose|i: int| 0 <= i < order.len() && order[i] == k
}

/// The value bound to `k`, or empty bytes when `k` is absent. Every
/// read the protocol offers goes through this: absence is never an
/// error.
pub open spec fn spec_get(m: Map<Seq<u8>, Seq<u8>>, k: Seq<u8>) -> Seq<u8> {
    if m.contains_key(k) {
        m[k]
    } else {
        Seq::empty()
    }
}

/// The page of keys `Keys(take, skip)` reports: skip `skip` keys of
/// the order, then take at most `take`.
pub open spec fn spec_page(order: Seq<Seq<u8>>, take: int, skip: int) -> Seq<Seq<u8>> {
    let after = if skip >= order.len() {
        Seq::<Seq<u8>>::empty()
    } else {
        order.subrange(skip, order.len() as int)
    };
    if take >= after.len() {
        after
    } else {
        after.subrange(0, take)
    }
}

/// Keys joined by CRLF: no separator around the edges, none for an
/// empty page.
pub open spec fn spec_join_crlf(keys: Seq<Seq<u8>>) -> Seq<u8>
    decreases keys.len(),
{
    if keys.len() == 0 {
        Seq::empty()
    } else if keys.len() == 1 {
        keys[0]
    } else {
        keys[0] + seq![13u8, 10u8] + spec_join_crlf(keys.subrange(1, keys.len() as int))
    }
}

/// How one command changes the store: `Put` binds, `Delete` unbinds,
/// everything else leaves the store alone. A `Put` of a present key
/// keeps the key's place in the order; a new key goes to the end.
pub open spec fn spec_apply(s: StoreModel, c: CmdModel) -> StoreModel {
    match c {
        CmdModel::Put { key, value } => StoreModel {
            map: s.map.insert(key, value),
            order: if s.map.contains_key(key) {
                s.order
            } else {
                s.order.push(key)
            },
        },
        CmdModel::Delete { key } => StoreModel {
            map: s.map.remove(key),
            order: if s.map.contains_key(key) {
                s.order.remove(spec_key_index(s.order, key))
            } else {
                s.order
            },
        },
        _ => s,
    }
}

/// The payload the handler answers a command with: the value for
/// `Get`, the previous value for `Put` and `Delete`, the joined page
/// for `Keys`, empty bytes for the non-storage commands.
pub open spec fn spec_payload(s: StoreModel, c: CmdModel) -> Seq<u8> {
    match c {
        CmdModel::Get { key } => spec_get(s.map, key),
        CmdModel::Put { key, .. } => spec_get(s.map, key),
        CmdModel::Delete { key } => spec_get(s.map, key),
        CmdModel::Keys { take, skip } => spec_join_crlf(
            spec_page(s.order, take as int, skip as int),
        ),
        _ => Seq::empty(),
    }
}

/// A store folded over a sequence of commands, in order.
pub open spec fn spec_apply_all(s: StoreModel, cs: Seq<CmdModel>) -> StoreModel
    decreases cs.len(),
{
    if cs.len() == 0 {
        s
    } else {
        spec_apply_all(spec_apply(s, cs[0]), cs.subrange(1, cs.len() as int))
    }
}

/// The store an empty server reaches after the given commands.
pub open spec fn spec_replayed(cs: Seq<CmdModel>) -> StoreModel {
    spec_apply_all(StoreModel { map: Map::empty(), order: Seq::empty() }, cs)
}

/// Every consistent store stays consistent under every command: the
/// key order keeps listing each bound key exactly once.
pub proof fn lemma_apply_preserves_model_wf(s: StoreModel, c: CmdModel)
    requires
        model_wf(s),
    ensures
        model_wf(spec_apply(s, c)),
{
    match c {
        CmdModel::Put { key, value } => {
            let t = spec_apply(s, c);
            if s.map.contains_key(key) {
                assert forall|i: int| 0 <= i < t.order.len() implies t.map.contains_key(
                    #[trigger] t.order[i],
                ) by {
                    assert(s.map.contains_key(s.order[i]));
                }
                assert forall|k: Seq<u8>| #[trigger] t.map.contains_key(k) implies exists|i: int|
                    0 <= i < t.order.len() && t.order[i] == k by {
                    assert(s.map.contains_key(k) || k == key);
                    assert(s.map.contains_key(k));
                    let w = choose|i: int| 0 <= i < s.order.len() && s.order[i] == k;
                    assert(0 <= w < t.order.len() && t.order[w] == k);
                }
            } else {
                assert forall|i: int, j: int| 0 <= i < j < t.order.len() implies t.order[i]
                    != t.order[j] by {
                    if j == s.order.len() as int {
                        assert(t.order[i] == s.order[i]);
                        assert(s.map.contains_key(s.order[i]));
                    }
                }
                assert forall|i: int| 0 <= i < t.order.len() implies t.map.contains_key(
                    #[trigger] t.order[i],
                ) by {
                    if i < s.order.len() as int {
                        assert(s.map.contains_key(s.order[i]));
                    } else {
                        assert(t.order[i] == key);
                    }
                }
                assert forall|k: Seq<u8>| #[trigger] t.map.contains_key(k) implies exists|i: int|
                    0 <= i < t.order.len() && t.order[i] == k by {
                    if k == key {
                        assert(t.order[s.order.len() as int] == key);
                    } else {
                        assert(s.map.contains_key(k));
                        let i = choose|i: int| 0 <= i < s.order.len() && s.order[i] == k;
                        assert(t.order[i] == k);
                    }
                }
            }
        },
        CmdModel::Delete { key } => {
            if s.map.contains_key(key) {
                let t = spec_apply(s, c);
                let idx = spec_key_index(s.order, key);
                assert(0 <= idx < s.order.len() && s.order[idx] == key);
                assert forall|i: int, j: int| 0 <= i < j < t.order.len() implies t.order[i]
                    != t.order[j] by {
                    let pi = if i < idx {
                        i
                    } else {
                        i + 1
                    };
                    let pj = if j < idx {
                        j
                    } else {
                        j + 1
                    };
                    assert(t.order[i] == s.order[pi]);
                    assert(t.order[j] == s.order[pj]);
                }
                assert forall|i: int| 0 <= i < t.order.len() implies t.map.contains_key(
                    #[trigger] t.order[i],
                ) by {
                    let pi = if i < idx {
                        i
                    } else {
                        i + 1
                    };
                    assert(t.order[i] == s.order[pi]);
                    assert(s.map.contains_key(s.order[pi]));
                    if s.order[pi] == key {
                        assert(pi != idx);
                        assert(false);
                    }
                }
                assert forall|k: Seq<u8>| #[trigger] t.map.contains_key(k) implies exists|i: int|
                    0 <= i < t.order.len() && t.order[i] == k by {
                    assert(s.map.contains_key(k) && k != key);
                    let i = choose|i: int| 0 <= i < s.order.len() && s.order[i] == k;
                    assert(i != idx);
                    if i < idx {
                        assert(t.order[i] == k);
                    } else {
                        assert(t.order[i - 1] == k);
                    }
                }
            } else {
                let t = spec_apply(s, c);
                assert(t.map =~= s.map);
            }
        },
        _ => {},
    }
}

/// A consistent store type carries a consistent model: the entry
/// list's distinct keys become a key order that lists each bound key
/// exactly once.
pub proof fn lemma_cache_model_wf(c: &Cache)
    requires
        c.wf(),
    ensures
        model_wf(c@),
{
    assert forall|i: int| 0 <= i < c@.order.len() implies c@.map.contains_key(
        #[trigger] c@.order[i],
    ) by {
        assert(entries_contain(c.entries@, c.entries@[i].0@));
    }
    assert forall|k: Seq<u8>| #[trigger] c@.map.contains_key(k) implies exists|i: int|
        0 <= i < c@.order.len() && c@.order[i] == k by {
        let i = entry_index(c.entries@, k);
        assert(0 <= i < c@.order.len() && c@.order[i] == k);
    }
}

/// Whether `c` is a mutation of key `k`.
pub open spec fn spec_mutates_key(c: CmdModel, k: Seq<u8>) -> bool {
    match c {
        CmdModel::Put { key, .. } => key == k,
        CmdModel::Delete { key } => key == k,
        _ => false,
    }
}

/// A command that does not mutate `k` leaves the value read at `k`
/// alone.
proof fn lemma_apply_preserves_key(s: StoreModel, c: CmdModel, k: Seq<u8>)
    requires
        !spec_mutates_key(c, k),
    ensures
        spec_get(spec_apply(s, c).map, k) == spec_get(s.map, k),
{
}

/// A whole run of commands none of which mutates `k` leaves the
/// value read at `k` alone.
proof fn lemma_apply_all_preserves_key(s: StoreModel, cs: Seq<CmdModel>, k: Seq<u8>)
    requires
        forall|i: int| 0 <= i < cs.len() ==> !spec_mutates_key(#[trigger] cs[i], k),
    ensures
        spec_get(spec_apply_all(s, cs).map, k) == spec_get(s.map, k),
    decreases cs.len(),
{
    if cs.len() > 0 {
        lemma_apply_preserves_key(s, cs[0], k);
        lemma_apply_all_preserves_key(spec_apply(s, cs[0]), cs.subrange(1, cs.len() as int), k);
    }
}

/// After the last mutation of a key, reading the key gives exactly
/// what that mutation left: the value a `Put` bound, or empty bytes
/// after a `Delete` — however many commands that touch other keys
/// come in between.
pub proof fn lemma_get_after_last_mutation(
    s: StoreModel,
    m: CmdModel,
    cs: Seq<CmdModel>,
    k: Seq<u8>,
)
    requires
        spec_mutates_key(m, k),
        forall|i: int| 0 <= i < cs.len() ==> !spec_mutates_key(#[trigger] cs[i], k),
    ensures
        spec_get(spec_apply_all(spec_apply(s, m), cs).map, k) == (match m {
            CmdModel::Put { value, .. } => value,
            _ => Seq::<u8>::empty(),
        }),
{
    lemma_apply_all_preserves_key(spec_apply(s, m), cs, k);
}

/// Deleting a key twice is the same as deleting it once, and the
/// second delete answers empty bytes.
pub proof fn lemma_delete_idempotent(s: StoreModel, k: Seq<u8>)
    ensures
        spec_apply(spec_apply(s, CmdModel::Delete { key: k }), CmdModel::Delete { key: k })
            == spec_apply(s, CmdModel::Delete { key: k }),
        spec_payload(spec_apply(s, CmdModel::Delete { key: k }), CmdModel::Delete { key: k })
            == Seq::<u8>::empty(),
{
    let t = spec_apply(s, CmdModel::Delete { key: k });
    assert(t.map.remove(k) =~= t.map);
}

/// Something that executes commands against a store: the terminal
/// handler of the middleware chain. The handler never fails; absent
/// keys read as empty bytes.
pub trait CacheServer: Sized {
    /// The store this handler executes against.
    spec fn model(&self) -> StoreModel;

    /// The handler's internal consistency.
    spec fn inv(&self) -> bool;

    /// Executes one command: the store steps by [`spec_apply`] and
    /// the returned payload is [`spec_payload`].
    fn on_request(&mut self, f: &RequestCommand) -> (r: Vec<u8>)
        requires
            old(self).inv(),
        ensures
            final(self).inv(),
            final(self).model() == spec_apply(old(self).model(), f@),
            r@ == spec_payload(old(self).model(), f@),
    ;
}

/// The in-memory store: a flat list of key-value entries with
/// pairwise-distinct keys, in insertion order.
pub struct Cache {
    entries: Vec<(Vec<u8>, Vec<u8>)>,
}

impl View for Cache {
    type V = StoreModel;

    closed spec fn view(&self) -> StoreModel {
        StoreModel {
            map: Map::new(
                |k: Seq<u8>| entries_contain(self.entries@, k),
                |k: Seq<u8>| self.entries@[entry_index(self.entries@, k)].1@,
            ),
            order: self.entries@.map_values(|e: (Vec<u8>, Vec<u8>)| e.0@),
        }
    }
}

/// Whether some entry binds key `k`.
spec fn entries_contain(s: Seq<(Vec<u8>, Vec<u8>)>, k: Seq<u8>) -> bool {
    exists|i: int| 0 <= i < s.len() && s[i].0@ == k
}

/// The index of the entry binding `k`, unique under [`Cache::wf`].
spec fn entry_index(s: Seq<(Vec<u8>, Vec<u8>)>, k: Seq<u8>) -> int {
    choose|i: int| 0 <= i < s.len() && s[i].0@ == k
}

impl Cache {
    /// Entry keys are pairwise distinct.
    pub closed spec fn wf(&self) -> bool {
        forall|i: int, j: int|
            0 <= i < j < self.entries@.len() ==> self.entries@[i].0@ != self.entries@[j].0@
    }

    /// An empty store.
    pub fn new() -> (c: Cache)
        ensures
            c.wf(),
            c@.map == Map::<Seq<u8>, Seq<u8>>::empty(),
            c@.order == Seq::<Seq<u8>>::empty(),
    {
        let c = Cache { entries: Vec::new() };
        proof {
            assert(c@.map =~= Map::<Seq<u8>, Seq<u8>>::empty());
            assert(c@.order =~= Seq::<Seq<u8>>::empty());
        }
        c
    }

    /// The index of the entry binding `key`, if one does.
    fn find(&self, key: &[u8]) -> (r: Option<usize>)
        requires
            self.wf(),
        ensures
            match r {
                Some(i) => {
                    &&& 0 <= i < self.entries@.len()
                    &&& self.entries@[i as int].0@ == key@
                    &&& entries_contain(self.entries@, key@)
                    &&& entry_index(self.entries@, key@) == i as int
                },
                None => !entries_contain(self.entries@, key@),
            },
    {
        let n = self.entries.len();
        let mut i: usize = 0;
        while i < n
            invariant
                n == self.entries@.len(),
                0 <= i <= n,
                self.wf(),
                forall|j: int| 0 <= j < i ==> self.entries@[j].0@ != key@,
            decreases n - i,
        {
            let e = &self.entries[i];
            if bytes_eq(e.0.as_slice(), key) {
                proof {
                    let w = entry_index(self.entries@, key@);
                    assert(0 <= w < self.entries@.len() && self.entries@[w].0@ == key@);
                    if w != i as int {
                        assert(false);
                    }
                }
                return Some(i);
            }
            i = i + 1;
        }
        None
    }

    /// Reads `key`: its value, or empty bytes when absent. Never an
    /// error.
    pub fn get(&self, key: &[u8]) -> (r: Option<Vec<u8>>)
        requires
            self.wf(),
        ensures
            r matches Some(v) && v@ == spec_get(self@.map, key@),
    {
        match self.find(key) {
            Some(i) => {
                let e = &self.entries[i];
                Some(slice_to_vec(e.1.as_slice()))
            },
            None => Some(Vec::new()),
        }
    }

    /// Binds `key` to `val`, inserting or replacing; returns the
    /// previous value, or empty bytes if the key was new.
    pub fn set(&mut self, key: &[u8], val: Vec<u8>) -> (r: Option<Vec<u8>>)
        requires
            old(self).wf(),
        ensures
            final(self).wf(),
            final(self)@ == spec_apply(
                old(self)@,
                CmdModel::Put { key: key@, value: val@ },
            ),
            r matches Some(p) && p@ == spec_get(old(self)@.map, key@),
    {
        let ghost pre = self.entries@;
        match self.find(key) {
            Some(i) => {
                let prev = slice_to_vec(self.entries[i].1.as_slice());
                let owned_key = slice_to_vec(key);
                self.entries.set(i, (owned_key, val));
                proof {
                    let post = self.entries@;
                    assert forall|k: Seq<u8>| entries_contain(post, k)
                        <==> entries_contain(pre, k) by {
                        if entries_contain(post, k) {
                            let w = entry_index(post, k);
                            assert(0 <= w < pre.len() && pre[w].0@ == post[w].0@);
                        }
                        if entries_contain(pre, k) {
                            let w = entry_index(pre, k);
                            assert(0 <= w < post.len() && post[w].0@ == pre[w].0@);
                        }
                    }
                    assert forall|k: Seq<u8>| entries_contain(post, k) implies
                        post[entry_index(post, k)].1@ == spec_apply(
                            old(self)@,
                            CmdModel::Put { key: key@, value: val@ },
                        ).map[k] by {
                        let w = entry_index(post, k);
                        assert(0 <= w < post.len() && post[w].0@ == k);
                        if k == key@ {
                            if w != i as int {
                                assert(pre[w].0@ == key@);
                                assert(false);
                            }
                        } else {
                            assert(w != i as int);
                            assert(post[w] == pre[w]);
                            let v = entry_index(pre, k);
                            if v != w {
                                assert(false);
                            }
                        }
                    }
                    assert(self@.map =~= spec_apply(
                        old(self)@,
                        CmdModel::Put { key: key@, value: val@ },
                    ).map);
                    assert(self@.order =~= old(self)@.order);
                    assert(old(self)@.map.contains_key(key@));
                }
                Some(prev)
            },
            None => {
                let owned_key = slice_to_vec(key);
                self.entries.push((owned_key, val));
                proof {
                    let post = self.entries@;
                    assert forall|k: Seq<u8>| entries_contain(post, k) implies
                        (entries_contain(pre, k) || k == key@) by {
                        let w = entry_index(post, k);
                        if w < pre.len() as int {
                            assert(pre[w].0@ == k);
                        }
                    }
                    assert forall|k: Seq<u8>| entries_contain(pre, k) implies
                        entries_contain(post, k) by {
                        let w = entry_index(pre, k);
                        assert(post[w].0@ == k);
                    }
                    assert(entries_contain(post, key@)) by {
                        assert(post[pre.len() as int].0@ == key@);
                    }
                    assert(self.wf()) by {
                        assert forall|a: int, b: int|
                            0 <= a < b < post.len() implies post[a].0@ != post[b].0@ by {
                            if b == pre.len() as int {
                                assert(!entries_contain(pre, key@));
                                assert(post[a].0@ == pre[a].0@);
                            }
                        }
                    }
                    assert forall|k: Seq<u8>| entries_contain(post, k) implies
                        post[entry_index(post, k)].1@ == spec_apply(
                            old(self)@,
                            CmdModel::Put { key: key@, value: val@ },
                        ).map[k] by {
                        let w = entry_index(post, k);
                        assert(0 <= w < post.len() && post[w].0@ == k);
                        if k == key@ {
                            if w != pre.len() as int {
                                assert(pre[w].0@ == key@);
                                assert(false);
                            }
                        } else {
                            assert(w < pre.len() as int);
                            let v = entry_index(pre, k);
                            if v != w {
                                assert(false);
                            }
                        }
                    }
                    assert(self@.map =~= spec_apply(
                        old(self)@,
                        CmdModel::Put { key: key@, value: val@ },
                    ).map);
                    assert(!old(self)@.map.contains_key(key@));
                    assert(self@.order =~= old(self)@.order.push(key@));
                }
                Some(Vec::new())
            },
        }
    }

    /// Unbinds `key`; returns the previous value, or empty bytes when
    /// the key was absent. Deleting an absent key is not an error.
    pub fn delete(&mut self, key: &[u8]) -> (r: Option<Vec<u8>>)
        requires
            old(self).wf(),
        ensures
            final(self).wf(),
            final(self)@ == spec_apply(old(self)@, CmdModel::Delete { key: key@ }),
            r matches Some(p) && p@ == spec_get(old(self)@.map, key@),
    {
        let ghost pre = self.entries@;
        match self.find(key) {
            Some(i) => {
                let entry = self.entries.remove(i);
                proof {
                    let post = self.entries@;
                    assert forall|k: Seq<u8>| entries_contain(post, k) implies
                        (entries_contain(pre, k) && k != key@) by {
                        let w = entry_index(post, k);
                        let v = if w < i as int { w } else { w + 1 };
                        assert(pre[v].0@ == k);
                        if k == key@ {
                            assert(v != i as int);
                            assert(false);
                        }
                    }
                    assert forall|k: Seq<u8>| entries_contain(pre, k) && k != key@ implies
                        entries_contain(post, k) by {
                        let w = entry_index(pre, k);
                        assert(w != i as int);
                        if w < i as int {
                            assert(post[w].0@ == k);
                        } else {
                            assert(post[w - 1].0@ == k);
                        }
                    }
                    assert forall|k: Seq<u8>| entries_contain(post, k) implies
                        post[entry_index(post, k)].1@ == pre[entry_index(pre, k)].1@ by {
                        let w = entry_index(post, k);
                        let v = if w < i as int { w } else { w + 1 };
                        assert(pre[v].0@ == k);
                        let u = entry_index(pre, k);
                        if u != v {
                            assert(false);
                        }
                    }
                    assert(self@.map =~= spec_apply(
                        old(self)@,
                        CmdModel::Delete { key: key@ },
                    ).map);
                    assert(old(self)@.map.contains_key(key@));
                    assert(spec_key_index(old(self)@.order, key@) == i as int) by {
                        let w = spec_key_index(old(self)@.order, key@);
                        assert(old(self)@.order[i as int] == key@);
                        assert(0 <= w < old(self)@.order.len() && old(self)@.order[w] == key@);
                        if w != i as int {
                            assert(pre[w].0@ == key@);
                            assert(false);
                        }
                    }
                    assert(self@.order =~= old(self)@.order.remove(i as int));
                }
                Some(entry.1)
            },
            None => {
                proof {
                    assert(self@.map =~= spec_apply(
                        old(self)@,
                        CmdModel::Delete { key: key@ },
                    ).map);
                }
                Some(Vec::new())
            },
        }
    }

    /// Pages over the key order: skips `skip` keys, then reports at
    /// most `take`, joined by CRLF. An empty page is empty bytes.
    pub fn keys(&self, take: usize, skip: usize) -> (r: Option<Vec<u8>>)
        requires
            self.wf(),
        ensures
            r matches Some(p) && p@ == spec_payload(
                self@,
                CmdModel::Keys { take: take as u64, skip: skip as u64 },
            ),
    {
        let ghost page = spec_page(self@.order, take as int, skip as int);
        let n = self.entries.len();
        let mut out: Vec<u8> = Vec::new();
        if skip >= n || take == 0 {
            proof {
                assert(page.len() == 0);
            }
            return Some(out);
        }
        let avail = n - skip;
        let count = if take < avail {
            take
        } else {
            avail
        };
        proof {
            assert(page =~= self@.order.subrange(skip as int, (skip + count) as int));
        }
        let mut j: usize = 0;
        while j < count
            invariant
                self.wf(),
                0 <= j <= count,
                n == self.entries@.len(),
                skip + count <= n,
                page =~= self@.order.subrange(skip as int, (skip + count) as int),
                page.len() == count,
                out@ == spec_join_crlf(page.subrange(0, j as int)),
            decreases count - j,
        {
            let ghost sofar = page.subrange(0, j as int);
            if j > 0 {
                out.push(13);
                out.push(10);
            }
            let e = &self.entries[skip + j];
            out.extend_from_slice(e.0.as_slice());
            proof {
                assert(page[j as int] == self@.order[(skip + j) as int]);
                assert(self@.order[(skip + j) as int] == self.entries@[(skip + j) as int].0@);
                lemma_join_push(sofar, page[j as int]);
                assert(page.subrange(0, j as int + 1) =~= sofar.push(page[j as int]));
                if j == 0 {
                    assert(out@ =~= spec_join_crlf(page.subrange(0, j as int + 1)));
                } else {
                    assert(out@ =~= spec_join_crlf(sofar) + seq![13u8, 10u8] + page[j as int]);
                }
            }
            j = j + 1;
        }
        proof {
            assert(page.subrange(0, count as int) =~= page);
        }
        Some(out)
    }
}

/// Appending a key to a joined page appends a separator and the key,
/// except onto an empty page.
proof fn lemma_join_push(s: Seq<Seq<u8>>, k: Seq<u8>)
    ensures
        spec_join_crlf(s.push(k)) == if s.len() == 0 {
            k
        } else {
            spec_join_crlf(s) + seq![13u8, 10u8] + k
        },
    decreases s.len(),
{
    if s.len() == 0 {
        assert(s.push(k).len() == 1);
        assert(s.push(k)[0] == k);
    } else if s.len() == 1 {
        let t = s.push(k);
        assert(t.len() == 2);
        assert(t[0] == s[0]);
        assert(t.subrange(1, 2) =~= Seq::<Seq<u8>>::empty().push(k));
        assert(spec_join_crlf(t.subrange(1, 2)) == k);
    } else {
        let t = s.push(k);
        assert(t[0] == s[0]);
        assert(t.subrange(1, t.len() as int) =~= s.subrange(1, s.len() as int).push(k));
        lemma_join_push(s.subrange(1, s.len() as int), k);
        assert(spec_join_crlf(s) == s[0] + seq![13u8, 10u8] + spec_join_crlf(
            s.subrange(1, s.len() as int),
        ));
        assert(spec_join_crlf(t) == t[0] + seq![13u8, 10u8] + spec_join_crlf(
            t.subrange(1, t.len() as int),
        ));
        assert(spec_join_crlf(s.push(k)) =~= spec_join_crlf(s) + seq![13u8, 10u8] + k);
    }
}

/// Byte-wise equality of two byte strings.
pub fn bytes_eq(a: &[u8], b: &[u8]) -> (r: bool)
    ensures
        r == (a@ == b@),
{
    if a.len() != b.len() {
        return false;
    }
    let n = a.len();
    let mut i: usize = 0;
    while i < n
        invariant
            n == a@.len(),
            n == b@.len(),
            0 <= i <= n,
            forall|j: int| 0 <= j < i ==> a@[j] == b@[j],
        decreases n - i,
    {
        if *slice_index_get(a, i) != *slice_index_get(b, i) {
            return false;
        }
        i = i + 1;
    }
    proof {
        assert(a@ =~= b@);
    }
    true
}

impl CacheServer for Cache {
    open spec fn model(&self) -> StoreModel {
        self@
    }

    open spec fn inv(&self) -> bool {
        self.wf()
    }

    /// The terminal handler: dispatches a command against the store.
    /// Non-storage commands answer empty bytes and change nothing.
    fn on_request(&mut self, f: &RequestCommand) -> (r: Vec<u8>) {
        match f {
            RequestCommand::Get(key) => self.get(key.as_slice()).unwrap(),
            RequestCommand::Put(key, value) => {
                let owned = slice_to_vec(value.as_slice());
                self.set(key.as_slice(), owned).unwrap()
            },
            RequestCommand::Delete(key) => self.delete(key.as_slice()).unwrap(),
            RequestCommand::Keys(take, skip) => self.keys(*take, *skip).unwrap(),
            _ => Vec::new(),
        }
    }
}

} // verus!
