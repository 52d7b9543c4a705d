use vstd::prelude::*;
use std::collections::HashMap;
use crate::birelational_map::BirelationalId;
use crate::birelational_map::map_laws::{
    files_items_as_ids,
    relation_symmetric,
    law_empty_is_symmetric,
    law_insert_keeps_symmetry,
    law_remove_keeps_symmetry,
};
use crate::birelational_map::links::{contains_handle, push_absent, lemma_push_absent_no_duplicates, lemma_filter_facts};
use crate::birelational_map::slots::{
    DenseSlots,
    SLOT_LIMIT,
    dense_slot_contents,
    dense_new,
    dense_insert,
    dense_get,
    dense_set,
    dense_len,
    dense_live,
};

verus! {

broadcast use vstd::std_specs::hash::group_hash_axioms;

/// One side of the relation: for each identifier, the slot that stores its
/// item and the slots of the items it is related to, in the order the
/// relations were made.
pub type IndexView = Map<usize, (u64, Seq<u64>)>;

/// What a `BirelationalMap` holds.
pub struct MapView {
    /// The stored keys, by slot.
    pub keys: Map<u64, usize>,
    /// The stored values, by slot.
    pub values: Map<u64, usize>,
    /// For each key id: the slot of its key and the slots of its values.
    pub key_index: IndexView,
    /// For each value id: the slot of its value and the slots of its keys.
    pub value_index: IndexView,
}

/// Every entry of `index` names a slot of `own` for its item, and lists
/// distinct slots of `other`.
pub open spec fn index_wf(index: IndexView, own: Map<u64, usize>, other: Map<u64, usize>) -> bool {
    forall|id: usize|
        #[trigger] index.contains_key(id) ==> {
            &&& own.contains_key(index[id].0)
            &&& index[id].1.no_duplicates()
            &&& forall|i: int| 0 <= i < index[id].1.len() ==> other.contains_key(#[trigger] index[id].1[i])
        }
}

/// The slots related to `id`; none when `id` is unknown.
pub open spec fn links_of(index: IndexView, id: usize) -> Seq<u64> {
    if index.contains_key(id) {
        index[id].1
    } else {
        Seq::empty()
    }
}

/// Keeps the slots whose stored item differs from `unwanted`.
pub open spec fn differs_from(store: Map<u64, usize>, unwanted: usize) -> spec_fn(u64) -> bool {
    |h: u64| store[h] != unwanted
}

/// `index` after the entry of `id`, if there is one, drops the slots whose
/// item in `store` equals `unwanted`.
pub open spec fn unlink(index: IndexView, id: usize, store: Map<u64, usize>, unwanted: usize) -> IndexView {
    if index.contains_key(id) {
        index.insert(id, (index[id].0, index[id].1.filter(differs_from(store, unwanted))))
    } else {
        index
    }
}

impl MapView {
    pub open spec fn wf(self) -> bool {
        &&& self.keys.dom().finite()
        &&& self.values.dom().finite()
        &&& index_wf(self.key_index, self.keys, self.values)
        &&& index_wf(self.value_index, self.values, self.keys)
    }

    /// The values related to the key with id `kid`, in order.
    pub open spec fn values_of(self, kid: usize) -> Seq<usize> {
        self.key_index[kid].1.map_values(|h: u64| self.values[h])
    }

    /// The keys related to the value with id `vid`, in order.
    pub open spec fn keys_of(self, vid: usize) -> Seq<usize> {
        self.value_index[vid].1.map_values(|h: u64| self.keys[h])
    }

    /// Room for a new key slot and a new value slot where `insert` needs them.
    pub open spec fn has_room_for(self, kid: usize, vid: usize) -> bool {
        &&& !self.key_index.contains_key(kid) ==> self.keys.len() < SLOT_LIMIT
        &&& !self.value_index.contains_key(vid) ==> self.values.len() < SLOT_LIMIT
    }

    /// What `insert(key, value)` leaves, given the slots `kh` and `vh` that
    /// the key id and the value id have afterwards.
    pub open spec fn inserted(self, key: usize, value: usize, kh: u64, vh: u64) -> MapView {
        MapView {
            keys: if self.key_index.contains_key(key) { self.keys } else { self.keys.insert(kh, key) },
            values: if self.value_index.contains_key(value) {
                self.values
            } else {
                self.values.insert(vh, value)
            },
            key_index: self.key_index.insert(key, (kh, push_absent(links_of(self.key_index, key), vh))),
            value_index: self.value_index.insert(
                value,
                (vh, push_absent(links_of(self.value_index, value), kh)),
            ),
        }
    }

    /// Whether `kh` and `vh` are the slots that `insert(key, value)` may
    /// give the key id and the value id: the ones they have, or new ones.
    pub open spec fn insert_slots_ok(self, key: usize, value: usize, kh: u64, vh: u64) -> bool {
        &&& if self.key_index.contains_key(key) {
            kh == self.key_index[key].0
        } else {
            !self.keys.contains_key(kh)
        }
        &&& if self.value_index.contains_key(value) {
            vh == self.value_index[value].0
        } else {
            !self.values.contains_key(vh)
        }
    }

    /// What `remove(key, value)` leaves.
    pub open spec fn removed(self, key: usize, value: usize) -> MapView {
        MapView {
            key_index: unlink(self.key_index, key, self.values, value),
            value_index: unlink(self.value_index, value, self.keys, key),
            ..self
        }
    }
}

/// Growing both stores keeps an index well formed.
proof fn lemma_index_wf_grow(
    index: IndexView,
    own: Map<u64, usize>,
    other: Map<u64, usize>,
    own2: Map<u64, usize>,
    other2: Map<u64, usize>,
)
    requires
        index_wf(index, own, other),
        own.dom().subset_of(own2.dom()),
        other.dom().subset_of(other2.dom()),
    ensures
        index_wf(index, own2, other2),
{
    assert forall|id: usize| #[trigger] index.contains_key(id) implies {
        &&& own2.contains_key(index[id].0)
        &&& index[id].1.no_duplicates()
        &&& forall|i: int| 0 <= i < index[id].1.len() ==> other2.contains_key(#[trigger] index[id].1[i])
    } by {
        assert forall|i: int| 0 <= i < index[id].1.len() implies other2.contains_key(#[trigger] index[id].1[i]) by {
            assert(other.contains_key(index[id].1[i]));
        }
    }
}

/// Linking `id` (filed at slot `h` of `own`) to slot `g` of `other` keeps an
/// index well formed.
proof fn lemma_index_wf_link(
    index: IndexView,
    own: Map<u64, usize>,
    other: Map<u64, usize>,
    id: usize,
    h: u64,
    g: u64,
)
    requires
        index_wf(index, own, other),
        own.contains_key(h),
        other.contains_key(g),
        index.contains_key(id) ==> index[id].0 == h,
    ensures
        index_wf(index.insert(id, (h, push_absent(links_of(index, id), g))), own, other),
{
    let s = links_of(index, id);
    assert(s.no_duplicates());
    lemma_push_absent_no_duplicates(s, g);
    let t = push_absent(s, g);
    let index2 = index.insert(id, (h, t));
    assert forall|j: int| 0 <= j < t.len() implies other.contains_key(#[trigger] t[j]) by {
        assert(t.contains(t[j]));
        if s.contains(t[j]) {
            let k = choose|k: int| 0 <= k < s.len() && s[k] == t[j];
            assert(other.contains_key(s[k]));
        }
    }
    assert forall|x: usize| #[trigger] index2.contains_key(x) implies {
        &&& own.contains_key(index2[x].0)
        &&& index2[x].1.no_duplicates()
        &&& forall|i: int| 0 <= i < index2[x].1.len() ==> other.contains_key(#[trigger] index2[x].1[i])
    } by {
        if x != id {
            assert(index.contains_key(x));
        }
    }
}

/// Dropping slots from the list of `id` keeps an index well formed.
proof fn lemma_index_wf_unlink(
    index: IndexView,
    own: Map<u64, usize>,
    other: Map<u64, usize>,
    id: usize,
    store: Map<u64, usize>,
    unwanted: usize,
)
    requires
        index_wf(index, own, other),
    ensures
        index_wf(unlink(index, id, store, unwanted), own, other),
{
    if index.contains_key(id) {
        let s = index[id].1;
        let t = s.filter(differs_from(store, unwanted));
        lemma_filter_facts(s, differs_from(store, unwanted));
        let index2 = unlink(index, id, store, unwanted);
        assert forall|j: int| 0 <= j < t.len() implies other.contains_key(#[trigger] t[j]) by {
            assert(t.contains(t[j]));
            let k = choose|k: int| 0 <= k < s.len() && s[k] == t[j];
            assert(other.contains_key(s[k]));
        }
        assert forall|x: usize| #[trigger] index2.contains_key(x) implies {
            &&& own.contains_key(index2[x].0)
            &&& index2[x].1.no_duplicates()
            &&& forall|i: int| 0 <= i < index2[x].1.len() ==> other.contains_key(#[trigger] index2[x].1[i])
        } by {
            if x != id {
                assert(index.contains_key(x));
            }
        }
    }
}

impl MapView {
    /// `remove` keeps a map well formed.
    pub proof fn lemma_removed_wf(self, key: usize, value: usize)
        requires
            self.wf(),
        ensures
            self.removed(key, value).wf(),
    {
        lemma_index_wf_unlink(self.key_index, self.keys, self.values, key, self.values, value);
        lemma_index_wf_unlink(self.value_index, self.values, self.keys, value, self.keys, key);
    }

    /// Replacing a stored item keeps a map well formed.
    pub proof fn lemma_written_wf(self, side: Side, h: u64, item: usize)
        requires
            self.wf(),
            self.store(side).contains_key(h),
        ensures
            self.written(side, h, item).wf(),
    {
        let post = self.written(side, h, item);
        assert(post.store(side).dom() =~= self.store(side).dom());
        lemma_index_wf_grow(self.key_index, self.keys, self.values, post.keys, post.values);
        lemma_index_wf_grow(self.value_index, self.values, self.keys, post.values, post.keys);
    }

    /// `insert` keeps a map well formed.
    pub proof fn lemma_inserted_wf(self, key: usize, value: usize, kh: u64, vh: u64)
        requires
            self.wf(),
            self.insert_slots_ok(key, value, kh, vh),
        ensures
            self.inserted(key, value, kh, vh).wf(),
    {
        let n = self.inserted(key, value, kh, vh);
        assert(self.keys.dom().subset_of(n.keys.dom()));
        assert(self.values.dom().subset_of(n.values.dom()));
        lemma_index_wf_grow(self.key_index, self.keys, self.values, n.keys, n.values);
        lemma_index_wf_grow(self.value_index, self.values, self.keys, n.values, n.keys);
        lemma_index_wf_link(self.key_index, n.keys, n.values, key, kh, vh);
        lemma_index_wf_link(self.value_index, n.values, n.keys, value, vh, kh);
    }
}

pub open spec fn index_view(m: Map<usize, (u64, Vec<u64>)>) -> IndexView {
    m.map_values(|e: (u64, Vec<u64>)| (e.0, e.1@))
}

/// A map between keys and values, many to many: each key filed under its id,
/// each value under its id, and for each a list of what it is related to.
pub struct BirelationalMap {
    keys: DenseSlots,
    values: DenseSlots,
    keys_map: HashMap<usize, (u64, Vec<u64>)>,
    values_map: HashMap<usize, (u64, Vec<u64>)>,
}

impl View for BirelationalMap {
    type V = MapView;

    closed spec fn view(&self) -> MapView {
        MapView {
            keys: dense_slot_contents(self.keys),
            values: dense_slot_contents(self.values),
            key_index: index_view(self.keys_map@),
            value_index: index_view(self.values_map@),
        }
    }
}

/// Which store of a `BirelationalMap` an `ItemsMut` writes to.
#[derive(Clone, Copy, PartialEq, Eq, Debug)]
pub enum Side {
    Keys,
    Values,
}

impl MapView {
    /// The store on `side`.
    pub open spec fn store(self, side: Side) -> Map<u64, usize> {
        match side {
            Side::Keys => self.keys,
            Side::Values => self.values,
        }
    }

    /// This map with the item at slot `h` of the store on `side` replaced.
    pub open spec fn written(self, side: Side, h: u64, item: usize) -> MapView {
        match side {
            Side::Keys => MapView { keys: self.keys.insert(h, item), ..self },
            Side::Values => MapView { values: self.values.insert(h, item), ..self },
        }
    }
}

/// Write access to the items that one key or one value is related to: the
/// values of a key (`get_mut`, `get_by_id_mut`) or the keys of a value
/// (`get_value_mut`, `get_value_by_id_mut`). Item `i` is the item at slot
/// `handles[i]` of the store on `side`; as handed out, the `i`-th of the list
/// that `get_by_id` or `get_value_by_id` gives. The map keeps what is written
/// once the access ends. The fields are public because the contracts that
/// tie the map to the access name them; `get` and `set` check the position
/// and the slot, so an access built by hand does no harm.
pub struct ItemsMut<'a> {
    pub map: &'a mut BirelationalMap,
    pub handles: Vec<u64>,
    pub side: Side,
}

impl<'a> ItemsMut<'a> {
    /// The map as it is now.
    pub open spec fn map_view(&self) -> MapView {
        self.map@
    }

    /// The slots of the items, in order.
    pub open spec fn slots(&self) -> Seq<u64> {
        self.handles@
    }

    /// Whether slot `i` of the access holds an item of the map.
    pub open spec fn holds(&self, i: int) -> bool {
        0 <= i < self.handles@.len() && self.map@.store(self.side).contains_key(self.handles@[i])
    }

    /// The number of items.
    pub fn len(&self) -> (n: usize)
        ensures
            n == self.slots().len(),
    {
        self.handles.len()
    }

    /// Item `i`; `None` when there is no such position or its slot holds
    /// nothing.
    pub fn get(&self, i: usize) -> (item: Option<usize>)
        ensures
            item is Some <==> self.holds(i as int),
            item matches Some(x) ==> x == self.map_view().store(self.side)[self.slots()[i as int]],
    {
        if i >= self.handles.len() {
            return None;
        }
        let h = self.handles[i];
        match self.side {
            Side::Keys => if dense_live(&self.map.keys, h) {
                Some(*dense_get(&self.map.keys, h).unwrap())
            } else {
                None
            },
            Side::Values => if dense_live(&self.map.values, h) {
                Some(*dense_get(&self.map.values, h).unwrap())
            } else {
                None
            },
        }
    }

    /// Overwrites item `i` and tells whether it did; it does nothing when
    /// there is no such position or its slot holds nothing. The map keeps
    /// the new item once this access ends.
    pub fn set(&mut self, i: usize, item: usize) -> (written: bool)
        ensures
            final(self).slots() == old(self).slots(),
            final(self).side == old(self).side,
            written <==> old(self).holds(i as int),
            written ==> final(self).map_view() == old(self).map_view().written(
                old(self).side,
                old(self).slots()[i as int],
                item,
            ),
            !written ==> final(self).map_view() == old(self).map_view(),
            old(self).map.wf() ==> final(self).map.wf(),
            *final(final(self).map) == *final(old(self).map),
    {
        if i >= self.handles.len() {
            return false;
        }
        let h = self.handles[i];
        let ghost pre = self.map@;
        let live = match self.side {
            Side::Keys => dense_live(&self.map.keys, h),
            Side::Values => dense_live(&self.map.values, h),
        };
        if !live {
            return false;
        }
        match self.side {
            Side::Keys => dense_set(&mut self.map.keys, h, item),
            Side::Values => dense_set(&mut self.map.values, h, item),
        }
        proof {
            assert(self.map@ =~= pre.written(self.side, h, item));
            if pre.wf() {
                pre.lemma_written_wf(self.side, h, item);
            }
        }
        true
    }
}

/// Write access to the items of `map` at `handles`, on `side`; none when a
/// slot occurs twice in `handles` or holds nothing.
fn collect_slotmap_mut<'a>(map: &'a mut BirelationalMap, handles: Vec<u64>, side: Side) -> (access:
    Option<ItemsMut<'a>>)
    ensures
        access is Some <==> handles@.no_duplicates() && forall|i: int|
            0 <= i < handles@.len() ==> old(map)@.store(side).contains_key(#[trigger] handles@[i]),
        access matches Some(a) ==> {
            &&& a.map_view() == old(map)@
            &&& a.slots() == handles@
            &&& a.side == side
            &&& *final(map) == *final(a.map)
        },
        access is None ==> *final(map) == *old(map),
{
    let mut seen: Vec<u64> = Vec::new();
    let mut i: usize = 0;
    while i < handles.len()
        invariant
            0 <= i <= handles.len(),
            seen@ == handles@.take(i as int),
            handles@.take(i as int).no_duplicates(),
            forall|j: int| 0 <= j < i ==> map@.store(side).contains_key(#[trigger] handles@[j]),
        decreases handles.len() - i,
    {
        let h = handles[i];
        if contains_handle(&seen, h) {
            proof {
                let k = choose|k: int| 0 <= k < seen@.len() && seen@[k] == h;
                assert(handles@[k] == handles@[i as int]);
            }
            return None;
        }
        let live = match side {
            Side::Keys => dense_live(&map.keys, h),
            Side::Values => dense_live(&map.values, h),
        };
        if !live {
            return None;
        }
        proof {
            assert(handles@.take(i + 1) =~= handles@.take(i as int).push(h));
            lemma_push_absent_no_duplicates(handles@.take(i as int), h);
        }
        seen.push(h);
        i += 1;
    }
    assert(handles@.take(handles.len() as int) =~= handles@);
    Some(ItemsMut { map, handles, side })
}

/// The items in `store` at the slots `handles`, in order.
fn collect_items<'a>(store: &'a DenseSlots, handles: &Vec<u64>) -> (items: Vec<&'a usize>)
    requires
        forall|i: int| 0 <= i < handles.len() ==> dense_slot_contents(*store).contains_key(#[trigger] handles@[i]),
    ensures
        items@.len() == handles@.len(),
        forall|i: int| 0 <= i < handles.len() ==> *#[trigger] items@[i] == dense_slot_contents(*store)[handles@[i]],
{
    let mut items: Vec<&'a usize> = Vec::new();
    let mut i: usize = 0;
    while i < handles.len()
        invariant
            0 <= i <= handles.len(),
            items@.len() == i,
            forall|j: int| 0 <= j < handles.len() ==> dense_slot_contents(*store).contains_key(#[trigger] handles@[j]),
            forall|j: int| 0 <= j < i ==> *#[trigger] items@[j] == dense_slot_contents(*store)[handles@[j]],
        decreases handles.len() - i,
    {
        let found = dense_get(store, handles[i]);
        items.push(found.unwrap());
        i += 1;
    }
    items
}

impl BirelationalMap {
    pub open spec fn wf(&self) -> bool {
        self@.wf()
    }

    /// Whether `insert(key, value)` has the room it needs: slotmap panics
    /// when a store that must take a new item is full.
    pub fn has_room_for(&self, key: usize, value: usize) -> (room: bool)
        ensures
            room == self@.has_room_for(key, value),
    {
        (self.keys_map.contains_key(&key) || dense_len(&self.keys) < SLOT_LIMIT)
            && (self.values_map.contains_key(&value) || dense_len(&self.values) < SLOT_LIMIT)
    }

    pub fn new() -> (map: Self)
        ensures
            map.wf(),
            map@.keys.dom() == Set::<u64>::empty(),
            map@.values.dom() == Set::<u64>::empty(),
            map@.key_index.dom() == Set::<usize>::empty(),
            map@.value_index.dom() == Set::<usize>::empty(),
            files_items_as_ids(map@),
            relation_symmetric(map@),
    {
        let map = BirelationalMap {
            keys: dense_new(),
            values: dense_new(),
            keys_map: HashMap::new(),
            values_map: HashMap::new(),
        };
        assert(map@.key_index.dom() =~= Set::<usize>::empty());
        assert(map@.value_index.dom() =~= Set::<usize>::empty());
        proof {
            law_empty_is_symmetric(map@);
        }
        map
    }

    /// The values related to the key with id `key`, in the order the
    /// relations were made; `None` when no key has that id.
    pub fn get_by_id(&self, key: usize) -> (found: Option<Vec<&usize>>)
        requires
            self.wf(),
        ensures
            found is Some <==> self@.key_index.contains_key(key),
            found matches Some(items) ==> {
                &&& items@.len() == self@.values_of(key).len()
                &&& forall|i: int| 0 <= i < items@.len() ==> *#[trigger] items@[i] == self@.values_of(key)[i]
            },
    {
        match self.keys_map.get(&key) {
            None => None,
            Some(entry) => {
                proof {
                    assert(self@.key_index.contains_key(key));
                    assert(self@.key_index[key].1 == entry.1@);
                }
                Some(collect_items(&self.values, &entry.1))
            },
        }
    }

    /// The values related to `key`, found by its id.
    pub fn get(&self, key: usize) -> (found: Option<Vec<&usize>>)
        requires
            self.wf(),
        ensures
            found is Some <==> self@.key_index.contains_key(key),
            found matches Some(items) ==> {
                &&& items@.len() == self@.values_of(key).len()
                &&& forall|i: int| 0 <= i < items@.len() ==> *#[trigger] items@[i] == self@.values_of(key)[i]
            },
    {
        self.get_by_id(key.get_id())
    }

    /// The keys related to the value with id `value`, in the order the
    /// relations were made; `None` when no value has that id.
    pub fn get_value_by_id(&self, value: usize) -> (found: Option<Vec<&usize>>)
        requires
            self.wf(),
        ensures
            found is Some <==> self@.value_index.contains_key(value),
            found matches Some(items) ==> {
                &&& items@.len() == self@.keys_of(value).len()
                &&& forall|i: int| 0 <= i < items@.len() ==> *#[trigger] items@[i] == self@.keys_of(value)[i]
            },
    {
        match self.values_map.get(&value) {
            None => None,
            Some(entry) => {
                proof {
                    assert(self@.value_index.contains_key(value));
                    assert(self@.value_index[value].1 == entry.1@);
                }
                Some(collect_items(&self.keys, &entry.1))
            },
        }
    }

    /// The keys related to `value`, found by its id.
    pub fn get_value(&self, value: usize) -> (found: Option<Vec<&usize>>)
        requires
            self.wf(),
        ensures
            found is Some <==> self@.value_index.contains_key(value),
            found matches Some(items) ==> {
                &&& items@.len() == self@.keys_of(value).len()
                &&& forall|i: int| 0 <= i < items@.len() ==> *#[trigger] items@[i] == self@.keys_of(value)[i]
            },
    {
        self.get_value_by_id(value.get_id())
    }

    /// Write access to the values related to the key with id `key`, in the
    /// order `get_by_id` lists them; `None` when no key has that id.
    pub fn get_by_id_mut(&mut self, key: usize) -> (access: Option<ItemsMut<'_>>)
        requires
            old(self).wf(),
        ensures
            access is Some <==> old(self)@.key_index.contains_key(key),
            access matches Some(a) ==> {
                &&& a.map.wf()
                &&& a.map_view() == old(self)@
                &&& a.slots() == old(self)@.key_index[key].1
                &&& a.side == Side::Values
                &&& *final(self) == *final(a.map)
            },
            access is None ==> *final(self) == *old(self),
    {
        let handles = match self.keys_map.get(&key) {
            None => return None,
            Some(entry) => entry.1.clone(),
        };
        proof {
            assert(self@.key_index.contains_key(key));
            assert(handles@ =~= self@.key_index[key].1);
            assert forall|i: int| 0 <= i < handles.len() implies self@.values.contains_key(#[trigger] handles@[i]) by {
                assert(self@.key_index[key].1[i] == handles@[i]);
            }
        }
        collect_slotmap_mut(self, handles, Side::Values)
    }

    /// Write access to the values related to `key`, found by its id.
    pub fn get_mut(&mut self, key: usize) -> (access: Option<ItemsMut<'_>>)
        requires
            old(self).wf(),
        ensures
            access is Some <==> old(self)@.key_index.contains_key(key),
            access matches Some(a) ==> {
                &&& a.map.wf()
                &&& a.map_view() == old(self)@
                &&& a.slots() == old(self)@.key_index[key].1
                &&& a.side == Side::Values
                &&& *final(self) == *final(a.map)
            },
            access is None ==> *final(self) == *old(self),
    {
        self.get_by_id_mut(key.get_id())
    }

    /// Write access to the keys related to the value with id `value`, in the
    /// order `get_value_by_id` lists them; `None` when no value has that id.
    pub fn get_value_by_id_mut(&mut self, value: usize) -> (access: Option<ItemsMut<'_>>)
        requires
            old(self).wf(),
        ensures
            access is Some <==> old(self)@.value_index.contains_key(value),
            access matches Some(a) ==> {
                &&& a.map.wf()
                &&& a.map_view() == old(self)@
                &&& a.slots() == old(self)@.value_index[value].1
                &&& a.side == Side::Keys
                &&& *final(self) == *final(a.map)
            },
            access is None ==> *final(self) == *old(self),
    {
        let handles = match self.values_map.get(&value) {
            None => return None,
            Some(entry) => entry.1.clone(),
        };
        proof {
            assert(self@.value_index.contains_key(value));
            assert(handles@ =~= self@.value_index[value].1);
            assert forall|i: int| 0 <= i < handles.len() implies self@.keys.contains_key(#[trigger] handles@[i]) by {
                assert(self@.value_index[value].1[i] == handles@[i]);
            }
        }
        collect_slotmap_mut(self, handles, Side::Keys)
    }

    /// Write access to the keys related to `value`, found by its id.
    pub fn get_value_mut(&mut self, value: usize) -> (access: Option<ItemsMut<'_>>)
        requires
            old(self).wf(),
        ensures
            access is Some <==> old(self)@.value_index.contains_key(value),
            access matches Some(a) ==> {
                &&& a.map.wf()
                &&& a.map_view() == old(self)@
                &&& a.slots() == old(self)@.value_index[value].1
                &&& a.side == Side::Keys
                &&& *final(self) == *final(a.map)
            },
            access is None ==> *final(self) == *old(self),
    {
        self.get_value_by_id_mut(value.get_id())
    }

    /// Relates `key` and `value`. A key id or value id seen for the first
    /// time gets a new slot holding the item given; one seen before keeps the
    /// item it has, and the relation is recorded once only.
    pub fn insert(&mut self, key: usize, value: usize)
        requires
            old(self).wf(),
            old(self)@.has_room_for(key, value),
        ensures
            final(self).wf(),
            old(self)@.insert_slots_ok(
                key,
                value,
                final(self)@.key_index[key].0,
                final(self)@.value_index[value].0,
            ),
            files_items_as_ids(old(self)@) && relation_symmetric(old(self)@) ==> files_items_as_ids(final(self)@)
                && relation_symmetric(final(self)@),
            final(self)@ == old(self)@.inserted(
                key,
                value,
                final(self)@.key_index[key].0,
                final(self)@.value_index[value].0,
            ),
    {
        let key_id = key.get_id();
        let value_id = value.get_id();
        let key_exists = self.keys_map.contains_key(&key_id);
        let value_exists = self.values_map.contains_key(&value_id);
        let ghost pre = self@;
        let key_idx: u64;
        let value_idx: u64;
        if key_exists {
            key_idx = self.keys_map.get(&key_id).unwrap().0;
        } else {
            key_idx = dense_insert(&mut self.keys, key);
        }
        if value_exists {
            value_idx = self.values_map.get(&value_id).unwrap().0;
        } else {
            value_idx = dense_insert(&mut self.values, value);
        }
        link(&mut self.keys_map, key_id, key_idx, value_idx);
        link(&mut self.values_map, value_id, value_idx, key_idx);
        proof {
            assert(pre.insert_slots_ok(key, value, key_idx, value_idx));
            pre.lemma_inserted_wf(key, value, key_idx, value_idx);
            assert(self@ =~= pre.inserted(key, value, key_idx, value_idx));
            if files_items_as_ids(pre) && relation_symmetric(pre) {
                law_insert_keeps_symmetry(pre, key, value, key_idx, value_idx);
            }
        }
    }
    /// Undoes the relation between `key` and `value`: the key's list drops
    /// every value equal to `value`, and the value's list drops every key
    /// equal to `key`. The stored items and their ids stay.
    pub fn remove(&mut self, key: usize, value: usize)
        requires
            old(self).wf(),
        ensures
            final(self).wf(),
            final(self)@ == old(self)@.removed(key, value),
            files_items_as_ids(old(self)@) && relation_symmetric(old(self)@) ==> files_items_as_ids(final(self)@)
                && relation_symmetric(final(self)@),
    {
        let ghost pre = self@;
        let key_id = key.get_id();
        if self.keys_map.contains_key(&key_id) {
            let entry = self.keys_map.remove(&key_id).unwrap();
            assert(entry.1@ == pre.key_index[key].1);
            assert forall|i: int| 0 <= i < entry.1.len() implies pre.values.contains_key(#[trigger] entry.1@[i]) by {
                assert(pre.key_index.contains_key(key));
                assert(pre.key_index[key].1[i] == entry.1@[i]);
            }
            let kept = retain_differing(&self.values, entry.1, value);
            self.keys_map.insert(key_id, (entry.0, kept));
        }
        assert(index_view(self.keys_map@) =~= unlink(pre.key_index, key, pre.values, value));
        let value_id = value.get_id();
        if self.values_map.contains_key(&value_id) {
            let entry = self.values_map.remove(&value_id).unwrap();
            assert(entry.1@ == pre.value_index[value].1);
            assert forall|i: int| 0 <= i < entry.1.len() implies pre.keys.contains_key(#[trigger] entry.1@[i]) by {
                assert(pre.value_index.contains_key(value));
                assert(pre.value_index[value].1[i] == entry.1@[i]);
            }
            let kept = retain_differing(&self.keys, entry.1, key);
            self.values_map.insert(value_id, (entry.0, kept));
        }
        assert(index_view(self.values_map@) =~= unlink(pre.value_index, value, pre.keys, key));
        proof {
            pre.lemma_removed_wf(key, value);
            assert(self@ =~= pre.removed(key, value));
            if files_items_as_ids(pre) && relation_symmetric(pre) {
                law_remove_keeps_symmetry(pre, key, value);
            }
        }
    }
}

/// The slots of `list` whose item in `store` differs from `unwanted`, in order.
fn retain_differing(store: &DenseSlots, list: Vec<u64>, unwanted: usize) -> (kept: Vec<u64>)
    requires
        forall|i: int| 0 <= i < list.len() ==> dense_slot_contents(*store).contains_key(#[trigger] list@[i]),
    ensures
        kept@ == list@.filter(differs_from(dense_slot_contents(*store), unwanted)),
{
    let ghost pred = differs_from(dense_slot_contents(*store), unwanted);
    let mut kept: Vec<u64> = Vec::new();
    let mut i: usize = 0;
    proof {
        reveal(Seq::filter);
        assert(list@.take(0) =~= Seq::<u64>::empty());
    }
    while i < list.len()
        invariant
            0 <= i <= list.len(),
            pred == differs_from(dense_slot_contents(*store), unwanted),
            forall|j: int| 0 <= j < list.len() ==> dense_slot_contents(*store).contains_key(#[trigger] list@[j]),
            kept@ == list@.take(i as int).filter(pred),
        decreases list.len() - i,
    {
        let h = list[i];
        let item = *dense_get(store, h).unwrap();
        proof {
            assert(list@.take(i + 1) =~= list@.take(i as int).push(h));
            list@.take(i as int).lemma_filter_push(h, pred);
        }
        if item != unwanted {
            kept.push(h);
        }
        i += 1;
    }
    assert(list@.take(list.len() as int) =~= list@);
    kept
}

impl Default for BirelationalMap {
    fn default() -> (map: Self)
        ensures
            map.wf(),
            map@.keys.dom() == Set::<u64>::empty(),
            map@.values.dom() == Set::<u64>::empty(),
            map@.key_index.dom() == Set::<usize>::empty(),
            map@.value_index.dom() == Set::<usize>::empty(),
            files_items_as_ids(map@),
            relation_symmetric(map@),
    {
        Self::new()
    }
}

/// Files `id` at slot `h`, keeping its old slot if it has one, and adds slot
/// `g` to its list unless the list has it.
fn link(index: &mut HashMap<usize, (u64, Vec<u64>)>, id: usize, h: u64, g: u64)
    requires
        old(index)@.contains_key(id) ==> old(index)@[id].0 == h,
    ensures
        index_view(final(index)@) == index_view(old(index)@).insert(
            id,
            (h, push_absent(links_of(index_view(old(index)@), id), g)),
        ),
{
    let ghost pre = index_view(index@);
    let mut list: Vec<u64> = match index.remove(&id) {
        Some(entry) => entry.1,
        None => Vec::new(),
    };
    assert(list@ == links_of(pre, id));
    if !contains_handle(&list, g) {
        list.push(g);
    }
    index.insert(id, (h, list));
    assert(index_view(index@) =~= pre.insert(id, (h, push_absent(links_of(pre, id), g))));
}

} // verus!
