use vstd::prelude::*;
use slotmap::{DefaultKey, DenseSlotMap, Key, KeyData, SlotMap};
use crate::birelational_map::any_value::AnyValue;

verus! {

/// A `slotmap::DenseSlotMap` of `usize` values under default keys. Verus
/// cannot take the slot map type itself (its key parameter is bound by
/// slotmap's `Key` trait), so it is held here, out of Verus's sight, and
/// reached only through the functions below.
#[verifier::external_body]
pub struct DenseSlots {
    inner: DenseSlotMap<DefaultKey, usize>,
}

/// The most entries a slot map of this crate is asked to hold before an
/// insertion: slotmap panics once a map holds `2^32 - 2` elements.
pub const SLOT_LIMIT: usize = 0xffff_fffe;

/// The slot index of a key's `as_ffi` number: its low 32 bits.
pub open spec fn slot_index(handle: u64) -> int {
    handle as int % 0x1_0000_0000
}

/// `order` lists the handles of `dom`, each once, by increasing slot index.
pub open spec fn is_slot_order(dom: Set<u64>, order: Seq<u64>) -> bool {
    &&& order.no_duplicates()
    &&& forall|i: int| 0 <= i < order.len() ==> dom.contains(#[trigger] order[i])
    &&& forall|h: u64| #[trigger] dom.contains(h) ==> order.contains(h)
    &&& forall|i: int, j: int| 0 <= i < j < order.len() ==> slot_index(order[i]) < slot_index(order[j])
}

/// What a dense slot map holds: each live key, written as the `u64` that
/// `KeyData::as_ffi` gives for it, mapped to its value.
pub uninterp spec fn dense_slot_contents(m: DenseSlots) -> Map<u64, usize>;

/// `DenseSlotMap::new`: the new map holds nothing.
#[verifier::external_body]
pub(crate) fn dense_new() -> (fresh: DenseSlots)
    ensures
        dense_slot_contents(fresh).dom() == Set::<u64>::empty(),
{
    DenseSlots { inner: DenseSlotMap::new() }
}

/// `DenseSlotMap::insert`: stores `value` under a key that was not live
/// before, and hands that key back as its `as_ffi` number. Every other entry
/// stays as it was. Nothing here removes an entry, so the map has no vacant
/// slot and slotmap takes a new slot past the last one: the new key's slot
/// index is above that of every live key. slotmap panics when the map is full; the bound on the
/// number of entries keeps that out.
#[verifier::external_body]
pub(crate) fn dense_insert(m: &mut DenseSlots, value: usize) -> (handle: u64)
    requires
        dense_slot_contents(*old(m)).dom().finite(),
        dense_slot_contents(*old(m)).len() < SLOT_LIMIT,
    ensures
        !dense_slot_contents(*old(m)).contains_key(handle),
        forall|h: u64| #[trigger] dense_slot_contents(*old(m)).contains_key(h) ==> slot_index(h) < slot_index(handle),
        dense_slot_contents(*final(m)) == dense_slot_contents(*old(m)).insert(handle, value),
{
    m.inner.insert(value).data().as_ffi()
}

/// `DenseSlotMap::get` on a live key (rebuilt with `KeyData::from_ffi`, which
/// gives back the key that `as_ffi` was taken of): the value stored there.
#[verifier::external_body]
pub(crate) fn dense_get(m: &DenseSlots, handle: u64) -> (found: Option<&usize>)
    requires
        dense_slot_contents(*m).contains_key(handle),
    ensures
        found == Some(&dense_slot_contents(*m)[handle]),
{
    let key: DefaultKey = KeyData::from_ffi(handle).into();
    m.inner.get(key)
}

/// `IndexMut` of `DenseSlotMap` on a live key: overwrites the value stored
/// there and nothing else. It panics on a dead key, which `requires` keeps out.
#[verifier::external_body]
pub(crate) fn dense_set(m: &mut DenseSlots, handle: u64, value: usize)
    requires
        dense_slot_contents(*old(m)).contains_key(handle),
    ensures
        dense_slot_contents(*final(m)) == dense_slot_contents(*old(m)).insert(handle, value),
{
    let key: DefaultKey = KeyData::from_ffi(handle).into();
    m.inner[key] = value;
}

/// A `slotmap::SlotMap` of `usize` keys under default keys, held out of
/// Verus's sight for the reason given at `DenseSlots`.
#[verifier::external_body]
pub struct KeySlots {
    inner: SlotMap<DefaultKey, usize>,
}

/// A `slotmap::SlotMap` of `AnyValue`s under default keys, held out of
/// Verus's sight for the reason given at `DenseSlots`.
#[verifier::external_body]
pub struct ValueSlots {
    inner: SlotMap<DefaultKey, AnyValue>,
}

/// What a slot map of keys holds, by the `as_ffi` number of each live key.
pub uninterp spec fn key_slot_contents(m: KeySlots) -> Map<u64, usize>;

/// What a slot map of values holds, by the `as_ffi` number of each live key.
pub uninterp spec fn value_slot_contents(m: ValueSlots) -> Map<u64, AnyValue>;

/// `SlotMap::new`: the new map holds nothing.
#[verifier::external_body]
pub(crate) fn key_slots_new() -> (fresh: KeySlots)
    ensures
        key_slot_contents(fresh).dom() == Set::<u64>::empty(),
{
    KeySlots { inner: SlotMap::new() }
}

/// `SlotMap::insert`: stores `key` under a key of the slot map that was not
/// live before and hands that back as its `as_ffi` number; every other entry
/// stays. Nothing here removes an entry, so the map has no vacant slot and
/// slotmap takes a new slot past the last one: the new key's slot index is
/// above that of every live key. slotmap panics when the map is full; the bound keeps that out.
#[verifier::external_body]
pub(crate) fn key_slots_insert(m: &mut KeySlots, key: usize) -> (handle: u64)
    requires
        key_slot_contents(*old(m)).dom().finite(),
        key_slot_contents(*old(m)).len() < SLOT_LIMIT,
    ensures
        !key_slot_contents(*old(m)).contains_key(handle),
        forall|h: u64| #[trigger] key_slot_contents(*old(m)).contains_key(h) ==> slot_index(h) < slot_index(handle),
        key_slot_contents(*final(m)) == key_slot_contents(*old(m)).insert(handle, key),
{
    m.inner.insert(key).data().as_ffi()
}

/// `SlotMap::get` on a live key, rebuilt with `KeyData::from_ffi`.
#[verifier::external_body]
pub(crate) fn key_slots_get(m: &KeySlots, handle: u64) -> (found: Option<&usize>)
    requires
        key_slot_contents(*m).contains_key(handle),
    ensures
        found == Some(&key_slot_contents(*m)[handle]),
{
    let key: DefaultKey = KeyData::from_ffi(handle).into();
    m.inner.get(key)
}

/// `IndexMut` of `SlotMap` on a live key: overwrites that entry only. It
/// panics on a dead key, which `requires` keeps out.
#[verifier::external_body]
pub(crate) fn key_slots_set(m: &mut KeySlots, handle: u64, key: usize)
    requires
        key_slot_contents(*old(m)).contains_key(handle),
    ensures
        key_slot_contents(*final(m)) == key_slot_contents(*old(m)).insert(handle, key),
{
    let slot: DefaultKey = KeyData::from_ffi(handle).into();
    m.inner[slot] = key;
}

/// `SlotMap::keys`, each as its `as_ffi` number. The iterator walks the slots
/// by index and yields the occupied ones, and a key's `as_ffi` number holds
/// its slot index in the low 32 bits; so the live keys come each once, by
/// increasing slot index.
#[verifier::external_body]
pub(crate) fn key_slots_order(m: &KeySlots) -> (order: Vec<u64>)
    ensures
        is_slot_order(key_slot_contents(*m).dom(), order@),
{
    m.inner.keys().map(|k| k.data().as_ffi()).collect()
}

/// `SlotMap::new`: the new map holds nothing.
#[verifier::external_body]
pub(crate) fn value_slots_new() -> (fresh: ValueSlots)
    ensures
        value_slot_contents(fresh).dom() == Set::<u64>::empty(),
{
    ValueSlots { inner: SlotMap::new() }
}

/// `SlotMap::insert`: stores `value` under a key of the slot map that was
/// not live before and hands that back as its `as_ffi` number; every other
/// entry stays. As for `key_slots_insert`, the new key's slot index is above
/// that of every live key. slotmap panics when the map is full; the bound keeps that out.
#[verifier::external_body]
pub(crate) fn value_slots_insert(m: &mut ValueSlots, value: AnyValue) -> (handle: u64)
    requires
        value_slot_contents(*old(m)).dom().finite(),
        value_slot_contents(*old(m)).len() < SLOT_LIMIT,
    ensures
        !value_slot_contents(*old(m)).contains_key(handle),
        forall|h: u64| #[trigger] value_slot_contents(*old(m)).contains_key(h) ==> slot_index(h) < slot_index(handle),
        value_slot_contents(*final(m)) == value_slot_contents(*old(m)).insert(handle, value),
{
    m.inner.insert(value).data().as_ffi()
}

/// `SlotMap::get` on a live key, rebuilt with `KeyData::from_ffi`.
#[verifier::external_body]
pub(crate) fn value_slots_get(m: &ValueSlots, handle: u64) -> (found: Option<&AnyValue>)
    requires
        value_slot_contents(*m).contains_key(handle),
    ensures
        found == Some(&value_slot_contents(*m)[handle]),
{
    let key: DefaultKey = KeyData::from_ffi(handle).into();
    m.inner.get(key)
}

/// `IndexMut` of `SlotMap` on a live key: overwrites that entry only. It
/// panics on a dead key, which `requires` keeps out.
#[verifier::external_body]
pub(crate) fn value_slots_set(m: &mut ValueSlots, handle: u64, value: AnyValue)
    requires
        value_slot_contents(*old(m)).contains_key(handle),
    ensures
        value_slot_contents(*final(m)) == value_slot_contents(*old(m)).insert(handle, value),
{
    let key: DefaultKey = KeyData::from_ffi(handle).into();
    m.inner[key] = value;
}

/// `SlotMap::keys`, each as its `as_ffi` number: the live keys, each once,
/// by increasing slot index (see `key_slots_order`).
#[verifier::external_body]
pub(crate) fn value_slots_order(m: &ValueSlots) -> (order: Vec<u64>)
    ensures
        is_slot_order(value_slot_contents(*m).dom(), order@),
{
    m.inner.keys().map(|k| k.data().as_ffi()).collect()
}

/// Whether the key version in an `as_ffi` number (its high 32 bits) is odd,
/// as slotmap keeps it for every live key.
pub open spec fn has_odd_version(handle: u64) -> bool {
    handle / 0x1_0000_0000 % 2 == 1
}

/// The `as_ffi` number of the key that `KeyData::from_ffi` rebuilds from
/// `handle`: the same number with the version made odd.
pub open spec fn with_odd_version(handle: u64) -> u64 {
    if has_odd_version(handle) {
        handle
    } else {
        (handle + 0x1_0000_0000) as u64
    }
}

/// `DenseSlotMap::len`: the number of live entries.
#[verifier::external_body]
pub(crate) fn dense_len(m: &DenseSlots) -> (n: usize)
    ensures
        n == dense_slot_contents(*m).len(),
{
    m.inner.len()
}

/// `DenseSlotMap::contains_key` on the key that `KeyData::from_ffi` rebuilds
/// from `handle`. `from_ffi` makes the version odd, so this tells whether
/// `with_odd_version(handle)` is live; a live handle's version is odd
/// already.
#[verifier::external_body]
pub(crate) fn dense_contains(m: &DenseSlots, handle: u64) -> (found: bool)
    ensures
        found == dense_slot_contents(*m).contains_key(with_odd_version(handle)),
        dense_slot_contents(*m).contains_key(handle) ==> found,
        dense_slot_contents(*m).contains_key(handle) ==> (found <==> has_odd_version(handle)),
{
    let key: DefaultKey = KeyData::from_ffi(handle).into();
    m.inner.contains_key(key)
}

/// `SlotMap::len`: the number of live entries.
#[verifier::external_body]
pub(crate) fn key_slots_len(m: &KeySlots) -> (n: usize)
    ensures
        n == key_slot_contents(*m).len(),
{
    m.inner.len()
}

/// `SlotMap::contains_key` on the key that `KeyData::from_ffi` rebuilds
/// from `handle` (see `dense_contains`).
#[verifier::external_body]
pub(crate) fn key_slots_contains(m: &KeySlots, handle: u64) -> (found: bool)
    ensures
        found == key_slot_contents(*m).contains_key(with_odd_version(handle)),
        key_slot_contents(*m).contains_key(handle) ==> found,
        key_slot_contents(*m).contains_key(handle) ==> (found <==> has_odd_version(handle)),
{
    let key: DefaultKey = KeyData::from_ffi(handle).into();
    m.inner.contains_key(key)
}

/// `SlotMap::len`: the number of live entries.
#[verifier::external_body]
pub(crate) fn value_slots_len(m: &ValueSlots) -> (n: usize)
    ensures
        n == value_slot_contents(*m).len(),
{
    m.inner.len()
}

/// `SlotMap::contains_key` on the key that `KeyData::from_ffi` rebuilds
/// from `handle` (see `dense_contains`).
#[verifier::external_body]
pub(crate) fn value_slots_contains(m: &ValueSlots, handle: u64) -> (found: bool)
    ensures
        found == value_slot_contents(*m).contains_key(with_odd_version(handle)),
        value_slot_contents(*m).contains_key(handle) ==> found,
        value_slot_contents(*m).contains_key(handle) ==> (found <==> has_odd_version(handle)),
{
    let key: DefaultKey = KeyData::from_ffi(handle).into();
    m.inner.contains_key(key)
}

/// Whether `handle` is live in `m`.
pub(crate) fn dense_live(m: &DenseSlots, handle: u64) -> (live: bool)
    ensures
        live == dense_slot_contents(*m).contains_key(handle),
{
    dense_contains(m, handle) && handle / 0x1_0000_0000 % 2 == 1
}

/// Whether `handle` is live in `m`.
pub(crate) fn key_slots_live(m: &KeySlots, handle: u64) -> (live: bool)
    ensures
        live == key_slot_contents(*m).contains_key(handle),
{
    key_slots_contains(m, handle) && handle / 0x1_0000_0000 % 2 == 1
}

/// Whether `handle` is live in `m`.
pub(crate) fn value_slots_live(m: &ValueSlots, handle: u64) -> (live: bool)
    ensures
        live == value_slot_contents(*m).contains_key(handle),
{
    value_slots_contains(m, handle) && handle / 0x1_0000_0000 % 2 == 1
}

} // verus!
