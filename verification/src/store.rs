//! The expiring store: keys and values with optional deadlines.
//!
//! Time is a plain number here: every operation that looks at deadlines is
//! told what time it is. Nothing expires by itself; an entry whose deadline
//! has passed is removed when `get` or `keys` comes across it.

use vstd::prelude::*;
use bytes::Bytes;
use crate::payload::{bytes_view, slice_eq};

verus! {

/// The mathematical value of a stored entry.
pub ghost struct EntryView {
    pub value: Seq<u8>,
    /// The last moment at which the entry is still there, if it expires at all.
    pub expires_at: Option<nat>,
}

/// The mathematical value of a store: its entries by key.
pub type StoreView = Map<Seq<u8>, EntryView>;

/// Whether an entry's deadline has passed at time `now`.
pub open spec fn is_expired(e: EntryView, now: nat) -> bool {
    e.expires_at matches Some(deadline) && now > deadline
}

/// What `get` returns at time `now`, and the store it leaves behind.
pub open spec fn spec_get(m: StoreView, key: Seq<u8>, now: nat) -> (Option<Seq<u8>>, StoreView) {
    if !m.contains_key(key) {
        (None, m)
    } else if is_expired(m[key], now) {
        (None, m.remove(key))
    } else {
        (Some(m[key].value), m)
    }
}

/// The store after `set`.
pub open spec fn spec_set(
    m: StoreView,
    key: Seq<u8>,
    value: Seq<u8>,
    expires_at: Option<nat>,
) -> StoreView {
    m.insert(key, EntryView { value, expires_at })
}

/// What `del` returns, and the store it leaves behind.
pub open spec fn spec_del(m: StoreView, key: Seq<u8>) -> (bool, StoreView) {
    (m.contains_key(key), m.remove(key))
}

/// The store without the entries whose deadline has passed at time `now`.
pub open spec fn spec_sweep(m: StoreView, now: nat) -> StoreView {
    Map::new(|k: Seq<u8>| m.contains_key(k) && !is_expired(m[k], now), |k: Seq<u8>| m[k])
}

/// One stored entry.
pub struct Entry {
    pub key: Bytes,
    pub value: Bytes,
    pub expires_at: Option<u128>,
}

impl View for Entry {
    type V = EntryView;

    open spec fn view(&self) -> EntryView {
        EntryView {
            value: bytes_view(self.value),
            expires_at: match self.expires_at {
                Some(deadline) => Some(deadline as nat),
                None => None,
            },
        }
    }
}

/// Whether no two entries have the same key.
pub open spec fn distinct_keys(es: Seq<Entry>) -> bool {
    forall|i: int, j: int|
        0 <= i < es.len() && 0 <= j < es.len() && i != j ==> bytes_view(#[trigger] es[i].key)
            != bytes_view(#[trigger] es[j].key)
}

/// Whether some entry has the key `k`.
pub open spec fn has_key(es: Seq<Entry>, k: Seq<u8>) -> bool {
    exists|i: int| 0 <= i < es.len() && bytes_view(#[trigger] es[i].key) == k
}

/// The position of an entry with the key `k`.
pub open spec fn index_of(es: Seq<Entry>, k: Seq<u8>) -> int {
    choose|i: int| 0 <= i < es.len() && bytes_view(#[trigger] es[i].key) == k
}

/// The entries of a sequence, by key.
pub open spec fn entries_view(es: Seq<Entry>) -> StoreView {
    Map::new(|k: Seq<u8>| has_key(es, k), |k: Seq<u8>| es[index_of(es, k)]@)
}

/// Where keys are distinct, the entry at position `i` is the one found under
/// its key.
pub proof fn lemma_entry_at(es: Seq<Entry>, i: int)
    requires
        distinct_keys(es),
        0 <= i < es.len(),
    ensures
        entries_view(es).contains_key(bytes_view(es[i].key)),
        entries_view(es)[bytes_view(es[i].key)] == es[i]@,
        index_of(es, bytes_view(es[i].key)) == i,
{
    let k = bytes_view(es[i].key);
    assert(has_key(es, k));
    let j = index_of(es, k);
    assert(0 <= j < es.len() && bytes_view(es[j].key) == k);
    if j != i {
        assert(bytes_view(es[i].key) != bytes_view(es[j].key));
    }
}

/// The position of the entry with the given key, if there is one.
fn find(entries: &Vec<Entry>, key: &[u8]) -> (r: Option<usize>)
    ensures
        match r {
            Some(i) => i < entries@.len() && bytes_view(entries@[i as int].key) == key@,
            None => !has_key(entries@, key@),
        },
{
    let mut i: usize = 0;
    while i < entries.len()
        invariant
            i <= entries@.len(),
            forall|j: int| 0 <= j < i ==> bytes_view(#[trigger] entries@[j].key) != key@,
        decreases entries@.len() - i,
    {
        if slice_eq(entries[i].key.as_ref(), key) {
            return Some(i);
        }
        i += 1;
    }
    None
}

/// Taking the entry at position `i` away removes its key and nothing else.
proof fn lemma_remove(es: Seq<Entry>, i: int)
    requires
        distinct_keys(es),
        0 <= i < es.len(),
    ensures
        distinct_keys(es.remove(i)),
        entries_view(es.remove(i)) == entries_view(es).remove(bytes_view(es[i].key)),
{
    let rs = es.remove(i);
    let k = bytes_view(es[i].key);
    assert forall|a: int| 0 <= a < rs.len() implies #[trigger] rs[a] == es[if a < i {
        a
    } else {
        a + 1
    }] by {}
    assert forall|a: int, b: int| 0 <= a < rs.len() && 0 <= b < rs.len() && a != b implies bytes_view(
        #[trigger] rs[a].key,
    ) != bytes_view(#[trigger] rs[b].key) by {
        let a2 = if a < i { a } else { a + 1 };
        let b2 = if b < i { b } else { b + 1 };
        assert(rs[a] == es[a2] && rs[b] == es[b2]);
        assert(bytes_view(es[a2].key) != bytes_view(es[b2].key));
    }
    let left = entries_view(rs);
    let right = entries_view(es).remove(k);
    assert forall|q: Seq<u8>| left.contains_key(q) <==> right.contains_key(q) by {
        if left.contains_key(q) {
            let a = index_of(rs, q);
            let a2 = if a < i { a } else { a + 1 };
            assert(rs[a] == es[a2]);
            assert(bytes_view(es[a2].key) == q);
            assert(bytes_view(es[a2].key) != bytes_view(es[i].key));
        }
        if right.contains_key(q) {
            let a2 = index_of(es, q);
            assert(a2 != i);
            let a = if a2 < i { a2 } else { a2 - 1 };
            assert(rs[a] == es[a2]);
            assert(bytes_view(rs[a].key) == q);
        }
    }
    assert forall|q: Seq<u8>| left.contains_key(q) implies left[q] == right[q] by {
        let a = index_of(rs, q);
        let a2 = if a < i { a } else { a + 1 };
        assert(rs[a] == es[a2]);
        lemma_entry_at(es, a2);
    }
    assert(left =~= right);
}

/// Adding an entry under a key that is not there yet inserts it.
proof fn lemma_push(es: Seq<Entry>, e: Entry)
    requires
        distinct_keys(es),
        !has_key(es, bytes_view(e.key)),
    ensures
        distinct_keys(es.push(e)),
        entries_view(es.push(e)) == entries_view(es).insert(bytes_view(e.key), e@),
{
    let ps = es.push(e);
    let k = bytes_view(e.key);
    assert forall|a: int, b: int| 0 <= a < ps.len() && 0 <= b < ps.len() && a != b implies bytes_view(
        #[trigger] ps[a].key,
    ) != bytes_view(#[trigger] ps[b].key) by {
        if a < es.len() && b < es.len() {
            assert(bytes_view(es[a].key) != bytes_view(es[b].key));
        } else if a < es.len() {
            assert(bytes_view(es[a].key) != k);
        } else {
            assert(bytes_view(es[b].key) != k);
        }
    }
    let left = entries_view(ps);
    let right = entries_view(es).insert(k, e@);
    assert forall|q: Seq<u8>| left.contains_key(q) <==> right.contains_key(q) by {
        if left.contains_key(q) {
            let a = index_of(ps, q);
            if a < es.len() {
                assert(bytes_view(es[a].key) == q);
            }
        }
        if right.contains_key(q) {
            if q == k {
                assert(bytes_view(ps[es.len() as int].key) == q);
            } else {
                let a = index_of(es, q);
                assert(bytes_view(ps[a].key) == q);
            }
        }
    }
    assert forall|q: Seq<u8>| left.contains_key(q) implies left[q] == right[q] by {
        let a = index_of(ps, q);
        lemma_entry_at(ps, a);
        if a < es.len() {
            lemma_entry_at(es, a);
        }
    }
    assert(left =~= right);
}

/// The bytes of an optional payload.
pub open spec fn payload_view(b: Option<Bytes>) -> Option<Seq<u8>> {
    match b {
        Some(data) => Some(bytes_view(data)),
        None => None,
    }
}

/// A deadline as a plain number.
pub open spec fn deadline_view(d: Option<u128>) -> Option<nat> {
    match d {
        Some(at) => Some(at as nat),
        None => None,
    }
}

fn entries_get(entries: &mut Vec<Entry>, key: &Bytes, now: u128) -> (r: Option<Bytes>)
    requires
        distinct_keys(old(entries)@),
    ensures
        distinct_keys(final(entries)@),
        spec_get(entries_view(old(entries)@), bytes_view(*key), now as nat) == (
            payload_view(r),
            entries_view(final(entries)@),
        ),
{
    match find(entries, key.as_ref()) {
        None => None,
        Some(i) => {
            proof {
                lemma_entry_at(entries@, i as int);
            }
            let expired = match entries[i].expires_at {
                Some(deadline) => now > deadline,
                None => false,
            };
            if expired {
                proof {
                    lemma_remove(entries@, i as int);
                }
                let _ = entries.remove(i);
                None
            } else {
                Some(entries[i].value.clone())
            }
        },
    }
}

fn entries_set(entries: &mut Vec<Entry>, key: &Bytes, value: Bytes, expires_at: Option<u128>)
    requires
        distinct_keys(old(entries)@),
    ensures
        distinct_keys(final(entries)@),
        entries_view(final(entries)@) == spec_set(
            entries_view(old(entries)@),
            bytes_view(*key),
            bytes_view(value),
            deadline_view(expires_at),
        ),
{
    let ghost k = bytes_view(*key);
    match find(entries, key.as_ref()) {
        None => {},
        Some(i) => {
            proof {
                lemma_remove(entries@, i as int);
            }
            let _ = entries.remove(i);
        },
    }
    let ghost mid = entries@;
    assert(!has_key(mid, k)) by {
        if has_key(mid, k) {
            assert(entries_view(mid).contains_key(k));
        }
    }
    let entry = Entry { key: key.clone(), value, expires_at };
    proof {
        lemma_push(mid, entry);
        assert(entries_view(mid).insert(k, entry@) =~= entries_view(old(entries)@).insert(
            k,
            entry@,
        ));
    }
    entries.push(entry);
}

fn entries_del(entries: &mut Vec<Entry>, key: &Bytes) -> (r: bool)
    requires
        distinct_keys(old(entries)@),
    ensures
        distinct_keys(final(entries)@),
        spec_del(entries_view(old(entries)@), bytes_view(*key)) == (
            r,
            entries_view(final(entries)@),
        ),
{
    match find(entries, key.as_ref()) {
        None => {
            assert(entries_view(entries@).remove(bytes_view(*key)) =~= entries_view(entries@));
            false
        },
        Some(i) => {
            proof {
                lemma_entry_at(entries@, i as int);
                lemma_remove(entries@, i as int);
            }
            let _ = entries.remove(i);
            true
        },
    }
}

/// Removes every entry whose deadline has passed at time `now`.
fn entries_sweep(entries: &mut Vec<Entry>, now: u128)
    requires
        distinct_keys(old(entries)@),
    ensures
        distinct_keys(final(entries)@),
        entries_view(final(entries)@) == spec_sweep(entries_view(old(entries)@), now as nat),
{
    let mut i: usize = 0;
    while i < entries.len()
        invariant
            i <= entries@.len(),
            distinct_keys(entries@),
            spec_sweep(entries_view(entries@), now as nat) == spec_sweep(
                entries_view(old(entries)@),
                now as nat,
            ),
            forall|j: int| 0 <= j < i ==> !is_expired(#[trigger] entries@[j]@, now as nat),
        decreases entries@.len() - i,
    {
        let expired = match entries[i].expires_at {
            Some(deadline) => now > deadline,
            None => false,
        };
        if expired {
            proof {
                lemma_entry_at(entries@, i as int);
                lemma_remove(entries@, i as int);
                assert(spec_sweep(entries_view(entries@.remove(i as int)), now as nat)
                    =~= spec_sweep(entries_view(entries@), now as nat));
            }
            let _ = entries.remove(i);
        } else {
            i += 1;
        }
    }
    proof {
        let m = entries_view(entries@);
        assert forall|k: Seq<u8>| m.contains_key(k) implies !is_expired(m[k], now as nat) by {
            let j = index_of(entries@, k);
            assert(!is_expired(entries@[j]@, now as nat));
        }
        assert(spec_sweep(m, now as nat) =~= m);
    }
}

/// Whether `keys` lists exactly the keys of `m`, each once.
pub open spec fn lists_keys(keys: Seq<Bytes>, m: StoreView) -> bool {
    &&& forall|i: int| 0 <= i < keys.len() ==> m.contains_key(bytes_view(#[trigger] keys[i]))
    &&& forall|k: Seq<u8>|
        m.contains_key(k) ==> exists|i: int| 0 <= i < keys.len() && bytes_view(#[trigger] keys[i])
            == k
    &&& forall|i: int, j: int|
        0 <= i < keys.len() && 0 <= j < keys.len() && i != j ==> bytes_view(#[trigger] keys[i])
            != bytes_view(#[trigger] keys[j])
}

/// The keys of all entries.
fn entries_keys(entries: &Vec<Entry>) -> (r: Vec<Bytes>)
    requires
        distinct_keys(entries@),
    ensures
        lists_keys(r@, entries_view(entries@)),
{
    let mut out: Vec<Bytes> = Vec::new();
    let mut i: usize = 0;
    while i < entries.len()
        invariant
            i <= entries@.len(),
            out@.len() == i,
            forall|j: int| 0 <= j < i ==> bytes_view(#[trigger] out@[j]) == bytes_view(
                entries@[j].key,
            ),
        decreases entries@.len() - i,
    {
        out.push(entries[i].key.clone());
        i += 1;
    }
    proof {
        let m = entries_view(entries@);
        assert forall|j: int| 0 <= j < out@.len() implies m.contains_key(
            bytes_view(#[trigger] out@[j]),
        ) by {
            lemma_entry_at(entries@, j);
        }
        assert forall|k: Seq<u8>| m.contains_key(k) implies exists|j: int|
            0 <= j < out@.len() && bytes_view(#[trigger] out@[j]) == k by {
            let j = index_of(entries@, k);
            assert(bytes_view(out@[j]) == k);
        }
        assert forall|a: int, b: int|
            0 <= a < out@.len() && 0 <= b < out@.len() && a != b implies bytes_view(
            #[trigger] out@[a],
        ) != bytes_view(#[trigger] out@[b]) by {
            assert(bytes_view(entries@[a].key) != bytes_view(entries@[b].key));
        }
    }
    out
}

/// The expiring store.
pub struct Store {
    entries: Vec<Entry>,
}

impl View for Store {
    type V = StoreView;

    closed spec fn view(&self) -> StoreView {
        entries_view(self.entries@)
    }
}

impl Store {
    #[verifier::type_invariant]
    spec fn well_formed(self) -> bool {
        distinct_keys(self.entries@)
    }

    /// An empty store.
    pub fn new() -> (r: Store)
        ensures
            r@ == Map::<Seq<u8>, EntryView>::empty(),
    {
        let r = Store { entries: Vec::new() };
        assert(r@ =~= Map::<Seq<u8>, EntryView>::empty());
        r
    }

    /// Looks a key up at time `now`. An entry whose deadline has passed is
    /// removed and reported as absent.
    pub fn get(&mut self, key: &Bytes, now: u128) -> (r: Option<Bytes>)
        ensures
            spec_get(old(self)@, bytes_view(*key), now as nat) == (payload_view(r), final(self)@),
    {
        proof {
            use_type_invariant(&*self);
        }
        let mut entries: Vec<Entry> = Vec::new();
        core::mem::swap(&mut self.entries, &mut entries);
        let r = entries_get(&mut entries, key, now);
        core::mem::swap(&mut self.entries, &mut entries);
        r
    }

    /// Stores `value` under `key`, replacing what was there, deadline included.
    pub fn set(&mut self, key: &Bytes, value: Bytes, expires_at: Option<u128>)
        ensures
            final(self)@ == spec_set(
                old(self)@,
                bytes_view(*key),
                bytes_view(value),
                deadline_view(expires_at),
            ),
    {
        proof {
            use_type_invariant(&*self);
        }
        let mut entries: Vec<Entry> = Vec::new();
        core::mem::swap(&mut self.entries, &mut entries);
        entries_set(&mut entries, key, value, expires_at);
        core::mem::swap(&mut self.entries, &mut entries);
    }

    /// Removes a key, whether or not its deadline has passed, and says
    /// whether it was there.
    pub fn del(&mut self, key: &Bytes) -> (r: bool)
        ensures
            spec_del(old(self)@, bytes_view(*key)) == (r, final(self)@),
    {
        proof {
            use_type_invariant(&*self);
        }
        let mut entries: Vec<Entry> = Vec::new();
        core::mem::swap(&mut self.entries, &mut entries);
        let r = entries_del(&mut entries, key);
        core::mem::swap(&mut self.entries, &mut entries);
        r
    }

    /// Removes every entry whose deadline has passed at time `now` and lists
    /// the keys that are left, each once, in no particular order.
    pub fn keys(&mut self, now: u128) -> (r: Vec<Bytes>)
        ensures
            final(self)@ == spec_sweep(old(self)@, now as nat),
            lists_keys(r@, final(self)@),
    {
        proof {
            use_type_invariant(&*self);
        }
        let mut entries: Vec<Entry> = Vec::new();
        core::mem::swap(&mut self.entries, &mut entries);
        entries_sweep(&mut entries, now);
        let r = entries_keys(&entries);
        core::mem::swap(&mut self.entries, &mut entries);
        r
    }
}

} // verus!
