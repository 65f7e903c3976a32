//! What holds of the store's operations taken together.

use vstd::prelude::*;
use bytes::Bytes;
use crate::payload::bytes_view;
use crate::store::{
    is_expired, lists_keys, spec_del, spec_get, spec_set, spec_sweep, EntryView, StoreView,
};

verus! {

/// A value that was set is read back until its deadline has passed, and is
/// absent from then on. Without a deadline it is read back at any time.
pub proof fn lemma_get_after_set(
    m: StoreView,
    key: Seq<u8>,
    value: Seq<u8>,
    expires_at: Option<nat>,
    now: nat,
)
    ensures
        spec_get(spec_set(m, key, value, expires_at), key, now).0 == (match expires_at {
            Some(deadline) => if now > deadline {
                None
            } else {
                Some(value)
            },
            None => Some(value),
        }),
{
}

/// Setting a key leaves every other key as it was.
pub proof fn lemma_set_other_keys(
    m: StoreView,
    key: Seq<u8>,
    value: Seq<u8>,
    expires_at: Option<nat>,
    other: Seq<u8>,
    now: nat,
)
    requires
        other != key,
    ensures
        spec_get(spec_set(m, key, value, expires_at), other, now).0 == spec_get(m, other, now).0,
{
}

/// Setting a key again without a deadline clears the deadline it had: the new
/// value is read back at any time.
pub proof fn lemma_overwrite_clears_deadline(
    m: StoreView,
    key: Seq<u8>,
    first: Seq<u8>,
    deadline: nat,
    second: Seq<u8>,
    now: nat,
)
    ensures
        spec_get(
            spec_set(spec_set(m, key, first, Some(deadline)), key, second, None),
            key,
            now,
        ).0 == Some(second),
{
}

/// The first `get` that finds a key past its deadline removes it: nothing
/// finds it afterwards, at whatever time.
pub proof fn lemma_get_evicts(m: StoreView, key: Seq<u8>, now: nat, later: nat)
    requires
        m.contains_key(key),
        is_expired(m[key], now),
    ensures
        spec_get(m, key, now).0 == None::<Seq<u8>>,
        !spec_get(m, key, now).1.contains_key(key),
        spec_get(spec_get(m, key, now).1, key, later) == (None::<Seq<u8>>, spec_get(m, key, now).1),
{
}

/// A `get` that finds nothing to evict leaves the store as it was.
pub proof fn lemma_get_keeps_live(m: StoreView, key: Seq<u8>, now: nat)
    requires
        !(m.contains_key(key) && is_expired(m[key], now)),
    ensures
        spec_get(m, key, now).1 == m,
{
}

/// `del` answers true exactly where the key is there, deadline passed or not,
/// and then false until the key is set again.
pub proof fn lemma_del_once(m: StoreView, key: Seq<u8>)
    ensures
        spec_del(m, key).0 == m.contains_key(key),
        spec_del(spec_del(m, key).1, key).0 == false,
        spec_del(spec_del(m, key).1, key).1 == spec_del(m, key).1,
{
    assert(m.remove(key).remove(key) =~= m.remove(key));
}

/// `del` on a key that was never set answers false.
pub proof fn lemma_del_never_set(key: Seq<u8>)
    ensures
        spec_del(Map::<Seq<u8>, EntryView>::empty(), key).0 == false,
{
}

/// After `del` the key is absent, and every other key is as it was.
pub proof fn lemma_del_removes(m: StoreView, key: Seq<u8>, other: Seq<u8>, now: nat)
    ensures
        spec_get(spec_del(m, key).1, key, now).0 == None::<Seq<u8>>,
        other != key ==> spec_get(spec_del(m, key).1, other, now).0 == spec_get(m, other, now).0,
{
}

/// A sweep keeps exactly the entries whose deadline has not passed, unchanged.
pub proof fn lemma_sweep_keeps_live(m: StoreView, now: nat, key: Seq<u8>)
    ensures
        spec_sweep(m, now).contains_key(key) <==> m.contains_key(key) && !is_expired(m[key], now),
        spec_sweep(m, now).contains_key(key) ==> spec_sweep(m, now)[key] == m[key],
{
}

/// No key that `keys` lists has a deadline that has passed, and no live key
/// is missing from the list.
pub proof fn lemma_keys_are_live(m: StoreView, now: nat, keys: Seq<Bytes>)
    requires
        lists_keys(keys, spec_sweep(m, now)),
    ensures
        forall|i: int|
            0 <= i < keys.len() ==> m.contains_key(bytes_view(#[trigger] keys[i])) && !is_expired(
                m[bytes_view(keys[i])],
                now,
            ),
        forall|k: Seq<u8>|
            m.contains_key(k) && !is_expired(m[k], now) ==> exists|i: int|
                0 <= i < keys.len() && bytes_view(#[trigger] keys[i]) == k,
{
    assert forall|k: Seq<u8>| m.contains_key(k) && !is_expired(m[k], now) implies exists|i: int|
        0 <= i < keys.len() && bytes_view(#[trigger] keys[i]) == k by {
        assert(spec_sweep(m, now).contains_key(k));
    }
}

/// Writes to distinct keys do not disturb one another: after any two of them,
/// in either order, both values are there.
pub proof fn lemma_sets_commute(
    m: StoreView,
    k1: Seq<u8>,
    v1: Seq<u8>,
    e1: Option<nat>,
    k2: Seq<u8>,
    v2: Seq<u8>,
    e2: Option<nat>,
)
    requires
        k1 != k2,
    ensures
        spec_set(spec_set(m, k1, v1, e1), k2, v2, e2) == spec_set(spec_set(m, k2, v2, e2), k1, v1, e1),
{
    assert(spec_set(spec_set(m, k1, v1, e1), k2, v2, e2) =~= spec_set(
        spec_set(m, k2, v2, e2),
        k1,
        v1,
        e1,
    ));
}

} // verus!
