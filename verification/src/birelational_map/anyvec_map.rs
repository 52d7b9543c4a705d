use vstd::prelude::*;
use std::collections::HashMap;
use crate::birelational_map::BirelationalId;
use crate::birelational_map::links::lemma_filter_facts;
use crate::birelational_map::any_value::{AnyValue, ValueKind, kind_number, kind_of, same_value};
use crate::birelational_map::slots::{
    KeySlots,
    ValueSlots,
    SLOT_LIMIT,
    is_slot_order,
    slot_index,
    key_slot_contents,
    value_slot_contents,
    key_slots_new,
    key_slots_insert,
    key_slots_get,
    key_slots_set,
    key_slots_order,
    value_slots_new,
    value_slots_insert,
    value_slots_get,
    value_slots_set,
    value_slots_order,
    key_slots_len,
    key_slots_live,
    value_slots_len,
    value_slots_live,
};

verus! {

broadcast use vstd::std_specs::hash::group_hash_axioms;

/// For each key id: the slot of its key and the slots of its values, in the
/// order they were inserted.
pub type KeyIndexView = Map<usize, (u64, Seq<u64>)>;

/// For each value id: the slot of the first value filed under it, and its
/// relations, each a key slot and a value slot, in the order they were made.
pub type ValueIndexView = Map<usize, (u64, Seq<(u64, u64)>)>;

/// What a `BirelationalAnyValueMap` holds.
pub struct AnyMapView {
    /// The stored keys, by slot.
    pub keys: Map<u64, usize>,
    /// The stored values, by slot; each insertion stores its value anew.
    pub values: Map<u64, AnyValue>,
    pub key_index: KeyIndexView,
    pub value_index: ValueIndexView,
}

/// The value slots of `index[id]`; none when `id` is unknown.
pub open spec fn value_slots_of(index: KeyIndexView, id: usize) -> Seq<u64> {
    if index.contains_key(id) {
        index[id].1
    } else {
        Seq::empty()
    }
}

/// The relations of `index[id]`; none when `id` is unknown.
pub open spec fn relations_of(index: ValueIndexView, id: usize) -> Seq<(u64, u64)> {
    if index.contains_key(id) {
        index[id].1
    } else {
        Seq::empty()
    }
}

/// Accepts the slots whose value in `values` is of kind `kind`.
pub open spec fn slot_has_kind(values: Map<u64, AnyValue>, kind: ValueKind) -> spec_fn(u64) -> bool {
    |h: u64| kind_of(values[h]) == kind
}

/// Accepts the slots whose value in `values` is not the same as `value`.
pub open spec fn slot_differs(values: Map<u64, AnyValue>, value: AnyValue) -> spec_fn(u64) -> bool {
    |h: u64| !same_value(values[h], value)
}

/// Accepts the relations whose value is the same as `value`.
pub open spec fn relation_has_value(values: Map<u64, AnyValue>, value: AnyValue) -> spec_fn(
    (u64, u64),
) -> bool {
    |r: (u64, u64)| same_value(values[r.1], value)
}

/// Accepts the relations other than those of `key` with `value`.
pub open spec fn relation_differs(
    keys: Map<u64, usize>,
    values: Map<u64, AnyValue>,
    key: usize,
    value: AnyValue,
) -> spec_fn((u64, u64)) -> bool {
    |r: (u64, u64)| keys[r.0] != key || !same_value(values[r.1], value)
}

/// No value slot is listed under two key ids: each stored value was
/// inserted with one key.
pub open spec fn value_slots_disjoint(index: KeyIndexView) -> bool {
    forall|k1: usize, k2: usize, i: int, j: int|
        k1 != k2 && index.contains_key(k1) && index.contains_key(k2) && 0 <= i < index[k1].1.len() && 0 <= j
            < index[k2].1.len() ==> #[trigger] index[k1].1[i] != #[trigger] index[k2].1[j]
}

/// The id that a value is filed under.
pub open spec fn id_of(value: AnyValue) -> usize {
    kind_number(kind_of(value))
}

impl AnyMapView {
    pub open spec fn wf(self) -> bool {
        &&& self.keys.dom().finite()
        &&& self.values.dom().finite()
        &&& forall|kid: usize|
            #[trigger] self.key_index.contains_key(kid) ==> {
                &&& self.keys.contains_key(self.key_index[kid].0)
                &&& forall|i: int|
                    0 <= i < self.key_index[kid].1.len() ==> self.values.contains_key(
                        #[trigger] self.key_index[kid].1[i],
                    )
            }
        &&& forall|vid: usize|
            #[trigger] self.value_index.contains_key(vid) ==> {
                &&& self.values.contains_key(self.value_index[vid].0)
                &&& forall|i: int|
                    0 <= i < self.value_index[vid].1.len() ==> {
                        &&& self.keys.contains_key(#[trigger] self.value_index[vid].1[i].0)
                        &&& self.values.contains_key(self.value_index[vid].1[i].1)
                    }
            }
        &&& forall|kid: usize| #[trigger] self.key_index.contains_key(kid) ==> self.key_index[kid].1.no_duplicates()
        &&& value_slots_disjoint(self.key_index)
    }

    /// The values of kind `kind` inserted with the key of id `kid`, in order.
    pub open spec fn values_of_kind(self, kid: usize, kind: ValueKind) -> Seq<AnyValue> {
        self.key_index[kid].1.filter(slot_has_kind(self.values, kind)).map_values(|h: u64| self.values[h])
    }

    /// The keys related to a value the same as `value`, among the relations
    /// filed under `vid`, in order.
    pub open spec fn keys_with_value(self, vid: usize, value: AnyValue) -> Seq<usize> {
        self.value_index[vid].1.filter(relation_has_value(self.values, value)).map_values(
            |r: (u64, u64)| self.keys[r.0],
        )
    }

    /// Room for the slots that an insertion with key id `kid` needs.
    pub open spec fn has_room_for(self, kid: usize) -> bool {
        &&& self.values.len() < SLOT_LIMIT
        &&& !self.key_index.contains_key(kid) ==> self.keys.len() < SLOT_LIMIT
    }

    /// Whether `kh` and `vh` are slots that an insertion of `key` may use: the
    /// key's slot, or a new one; and a new slot for the value.
    pub open spec fn insert_slots_ok(self, key: usize, kh: u64, vh: u64) -> bool {
        &&& if self.key_index.contains_key(key) {
            kh == self.key_index[key].0
        } else {
            !self.keys.contains_key(kh)
        }
        &&& !self.values.contains_key(vh)
    }

    /// Whether the new slots that an insertion of `key` takes lie past every
    /// live slot of their store, as slotmap gives them.
    pub open spec fn new_slots_last(self, key: usize, kh: u64, vh: u64) -> bool {
        &&& forall|h: u64| #[trigger] self.values.contains_key(h) ==> slot_index(h) < slot_index(vh)
        &&& !self.key_index.contains_key(key) ==> forall|h: u64|
            #[trigger] self.keys.contains_key(h) ==> slot_index(h) < slot_index(kh)
    }

    /// What inserting `value` under `value_id` for `key` leaves, given the
    /// key's slot `kh` and the value's new slot `vh`.
    pub open spec fn inserted(self, key: usize, value_id: usize, value: AnyValue, kh: u64, vh: u64) -> AnyMapView {
        AnyMapView {
            keys: if self.key_index.contains_key(key) { self.keys } else { self.keys.insert(kh, key) },
            values: self.values.insert(vh, value),
            key_index: self.key_index.insert(key, (kh, value_slots_of(self.key_index, key).push(vh))),
            value_index: self.value_index.insert(
                value_id,
                (
                    if self.value_index.contains_key(value_id) {
                        self.value_index[value_id].0
                    } else {
                        vh
                    },
                    relations_of(self.value_index, value_id).push((kh, vh)),
                ),
            ),
        }
    }

    /// What `remove(key, value)` leaves.
    pub open spec fn removed(self, key: usize, value: AnyValue) -> AnyMapView {
        AnyMapView {
            key_index: if self.key_index.contains_key(key) {
                self.key_index.insert(
                    key,
                    (self.key_index[key].0, self.key_index[key].1.filter(slot_differs(self.values, value))),
                )
            } else {
                self.key_index
            },
            value_index: if self.value_index.contains_key(id_of(value)) {
                self.value_index.insert(
                    id_of(value),
                    (
                        self.value_index[id_of(value)].0,
                        self.value_index[id_of(value)].1.filter(
                            relation_differs(self.keys, self.values, key, value),
                        ),
                    ),
                )
            } else {
                self.value_index
            },
            ..self
        }
    }
}

/// A map between keys and values of many kinds, many to many: each key filed
/// under its id, each inserted value stored anew and filed under the id it
/// was given, for each key the list of its values and for each value id the
/// list of its relations.
pub struct BirelationalAnyValueMap {
    keys: KeySlots,
    values: ValueSlots,
    keys_map: HashMap<usize, (u64, Vec<u64>)>,
    values_map: HashMap<usize, (u64, Vec<(u64, u64)>)>,
}

pub open spec fn key_index_view(m: Map<usize, (u64, Vec<u64>)>) -> KeyIndexView {
    m.map_values(|e: (u64, Vec<u64>)| (e.0, e.1@))
}

pub open spec fn value_index_view(m: Map<usize, (u64, Vec<(u64, u64)>)>) -> ValueIndexView {
    m.map_values(|e: (u64, Vec<(u64, u64)>)| (e.0, e.1@))
}

impl View for BirelationalAnyValueMap {
    type V = AnyMapView;

    closed spec fn view(&self) -> AnyMapView {
        AnyMapView {
            keys: key_slot_contents(self.keys),
            values: value_slot_contents(self.values),
            key_index: key_index_view(self.keys_map@),
            value_index: value_index_view(self.values_map@),
        }
    }
}

/// The slots of `list` whose value in `store` is of kind `kind`, in order.
fn slots_of_kind(store: &ValueSlots, list: &Vec<u64>, kind: ValueKind) -> (kept: Vec<u64>)
    requires
        forall|i: int| 0 <= i < list.len() ==> value_slot_contents(*store).contains_key(#[trigger] list@[i]),
    ensures
        kept@ == list@.filter(slot_has_kind(value_slot_contents(*store), kind)),
{
    let ghost pred = slot_has_kind(value_slot_contents(*store), kind);
    let mut kept: Vec<u64> = Vec::new();
    let mut i: usize = 0;
    proof {
        reveal(Seq::filter);
        assert(list@.take(0) =~= Seq::<u64>::empty());
    }
    while i < list.len()
        invariant
            0 <= i <= list.len(),
            pred == slot_has_kind(value_slot_contents(*store), kind),
            forall|j: int| 0 <= j < list.len() ==> value_slot_contents(*store).contains_key(#[trigger] list@[j]),
            kept@ == list@.take(i as int).filter(pred),
        decreases list.len() - i,
    {
        let h = list[i];
        let found = value_slots_get(store, h).unwrap();
        proof {
            assert(list@.take(i + 1) =~= list@.take(i as int).push(h));
            list@.take(i as int).lemma_filter_push(h, pred);
        }
        if found.kind() == kind {
            kept.push(h);
        }
        i += 1;
    }
    assert(list@.take(list.len() as int) =~= list@);
    kept
}

/// The slots of `list` whose value in `store` is not the same as `value`.
fn slots_differing(store: &ValueSlots, list: Vec<u64>, value: &AnyValue) -> (kept: Vec<u64>)
    requires
        forall|i: int| 0 <= i < list.len() ==> value_slot_contents(*store).contains_key(#[trigger] list@[i]),
    ensures
        kept@ == list@.filter(slot_differs(value_slot_contents(*store), *value)),
{
    let ghost pred = slot_differs(value_slot_contents(*store), *value);
    let mut kept: Vec<u64> = Vec::new();
    let mut i: usize = 0;
    proof {
        reveal(Seq::filter);
        assert(list@.take(0) =~= Seq::<u64>::empty());
    }
    while i < list.len()
        invariant
            0 <= i <= list.len(),
            pred == slot_differs(value_slot_contents(*store), *value),
            forall|j: int| 0 <= j < list.len() ==> value_slot_contents(*store).contains_key(#[trigger] list@[j]),
            kept@ == list@.take(i as int).filter(pred),
        decreases list.len() - i,
    {
        let h = list[i];
        let found = value_slots_get(store, h).unwrap();
        proof {
            assert(list@.take(i + 1) =~= list@.take(i as int).push(h));
            list@.take(i as int).lemma_filter_push(h, pred);
        }
        if !found.same_as(value) {
            kept.push(h);
        }
        i += 1;
    }
    assert(list@.take(list.len() as int) =~= list@);
    kept
}

/// The relations of `list` other than those of `key` with `value`.
fn relations_differing(
    keys: &KeySlots,
    values: &ValueSlots,
    list: Vec<(u64, u64)>,
    key: usize,
    value: &AnyValue,
) -> (kept: Vec<(u64, u64)>)
    requires
        forall|i: int|
            0 <= i < list.len() ==> key_slot_contents(*keys).contains_key(#[trigger] list@[i].0)
                && value_slot_contents(*values).contains_key(list@[i].1),
    ensures
        kept@ == list@.filter(
            relation_differs(key_slot_contents(*keys), value_slot_contents(*values), key, *value),
        ),
{
    let ghost pred = relation_differs(key_slot_contents(*keys), value_slot_contents(*values), key, *value);
    let mut kept: Vec<(u64, u64)> = Vec::new();
    let mut i: usize = 0;
    proof {
        reveal(Seq::filter);
        assert(list@.take(0) =~= Seq::<(u64, u64)>::empty());
    }
    while i < list.len()
        invariant
            0 <= i <= list.len(),
            pred == relation_differs(key_slot_contents(*keys), value_slot_contents(*values), key, *value),
            forall|j: int|
                0 <= j < list.len() ==> key_slot_contents(*keys).contains_key(#[trigger] list@[j].0)
                    && value_slot_contents(*values).contains_key(list@[j].1),
            kept@ == list@.take(i as int).filter(pred),
        decreases list.len() - i,
    {
        let r = list[i];
        let stored_key = *key_slots_get(keys, r.0).unwrap();
        let stored_value = value_slots_get(values, r.1).unwrap();
        proof {
            assert(list@.take(i + 1) =~= list@.take(i as int).push(r));
            list@.take(i as int).lemma_filter_push(r, pred);
        }
        if stored_key != key || !stored_value.same_as(value) {
            kept.push(r);
        }
        i += 1;
    }
    assert(list@.take(list.len() as int) =~= list@);
    kept
}

/// The relations of `list` whose value is the same as `value`.
fn relations_with_value(values: &ValueSlots, list: &Vec<(u64, u64)>, value: &AnyValue) -> (kept: Vec<
    (u64, u64),
>)
    requires
        forall|i: int| 0 <= i < list.len() ==> value_slot_contents(*values).contains_key(#[trigger] list@[i].1),
    ensures
        kept@ == list@.filter(relation_has_value(value_slot_contents(*values), *value)),
{
    let ghost pred = relation_has_value(value_slot_contents(*values), *value);
    let mut kept: Vec<(u64, u64)> = Vec::new();
    let mut i: usize = 0;
    proof {
        reveal(Seq::filter);
        assert(list@.take(0) =~= Seq::<(u64, u64)>::empty());
    }
    while i < list.len()
        invariant
            0 <= i <= list.len(),
            pred == relation_has_value(value_slot_contents(*values), *value),
            forall|j: int| 0 <= j < list.len() ==> value_slot_contents(*values).contains_key(#[trigger] list@[j].1),
            kept@ == list@.take(i as int).filter(pred),
        decreases list.len() - i,
    {
        let r = list[i];
        let stored_value = value_slots_get(values, r.1).unwrap();
        proof {
            assert(list@.take(i + 1) =~= list@.take(i as int).push(r));
            list@.take(i as int).lemma_filter_push(r, pred);
        }
        if stored_value.same_as(value) {
            kept.push(r);
        }
        i += 1;
    }
    assert(list@.take(list.len() as int) =~= list@);
    kept
}

/// The values in `store` at the slots `handles`, in order.
fn collect_values<'a>(store: &'a ValueSlots, handles: &Vec<u64>) -> (items: Vec<&'a AnyValue>)
    requires
        forall|i: int| 0 <= i < handles.len() ==> value_slot_contents(*store).contains_key(#[trigger] handles@[i]),
    ensures
        items@.len() == handles@.len(),
        forall|i: int| 0 <= i < handles.len() ==> *#[trigger] items@[i] == value_slot_contents(*store)[handles@[i]],
{
    let mut items: Vec<&'a AnyValue> = Vec::new();
    let mut i: usize = 0;
    while i < handles.len()
        invariant
            0 <= i <= handles.len(),
            items@.len() == i,
            forall|j: int| 0 <= j < handles.len() ==> value_slot_contents(*store).contains_key(#[trigger] handles@[j]),
            forall|j: int| 0 <= j < i ==> *#[trigger] items@[j] == value_slot_contents(*store)[handles@[j]],
        decreases handles.len() - i,
    {
        items.push(value_slots_get(store, handles[i]).unwrap());
        i += 1;
    }
    items
}

/// The keys in `store` at the key slots of `relations`, in order.
fn collect_related_keys<'a>(store: &'a KeySlots, relations: &Vec<(u64, u64)>) -> (items: Vec<&'a usize>)
    requires
        forall|i: int| 0 <= i < relations.len() ==> key_slot_contents(*store).contains_key(#[trigger] relations@[i].0),
    ensures
        items@.len() == relations@.len(),
        forall|i: int|
            0 <= i < relations.len() ==> *#[trigger] items@[i] == key_slot_contents(*store)[relations@[i].0],
{
    let mut items: Vec<&'a usize> = Vec::new();
    let mut i: usize = 0;
    while i < relations.len()
        invariant
            0 <= i <= relations.len(),
            items@.len() == i,
            forall|j: int| 0 <= j < relations.len() ==> key_slot_contents(*store).contains_key(#[trigger] relations@[j].0),
            forall|j: int| 0 <= j < i ==> *#[trigger] items@[j] == key_slot_contents(*store)[relations@[j].0],
        decreases relations.len() - i,
    {
        items.push(key_slots_get(store, relations[i].0).unwrap());
        i += 1;
    }
    items
}

impl BirelationalAnyValueMap {
    pub open spec fn wf(&self) -> bool {
        self@.wf()
    }

    /// Whether an insertion for `key` has the room it needs: slotmap panics
    /// when a store that must take a new item is full.
    pub fn has_room_for(&self, key: usize) -> (room: bool)
        ensures
            room == self@.has_room_for(key),
    {
        value_slots_len(&self.values) < SLOT_LIMIT && (self.keys_map.contains_key(&key) || key_slots_len(
            &self.keys,
        ) < SLOT_LIMIT)
    }

    pub fn new() -> (map: Self)
        ensures
            map.wf(),
            map@.keys.dom() == Set::<u64>::empty(),
            map@.values.dom() == Set::<u64>::empty(),
            map@.key_index.dom() == Set::<usize>::empty(),
            map@.value_index.dom() == Set::<usize>::empty(),
    {
        let map = BirelationalAnyValueMap {
            keys: key_slots_new(),
            values: value_slots_new(),
            keys_map: HashMap::new(),
            values_map: HashMap::new(),
        };
        assert(map@.key_index.dom() =~= Set::<usize>::empty());
        assert(map@.value_index.dom() =~= Set::<usize>::empty());
        map
    }

    /// The values of kind `kind` inserted with `key`, in order; `None` when
    /// no key has the id of `key`.
    pub fn get(&mut self, key: usize, kind: ValueKind) -> (found: Option<Vec<&AnyValue>>)
        requires
            old(self).wf(),
        ensures
            *final(self) == *old(self),
            found is Some <==> old(self)@.key_index.contains_key(key),
            found matches Some(items) ==> {
                &&& items@.len() == old(self)@.values_of_kind(key, kind).len()
                &&& forall|i: int|
                    0 <= i < items@.len() ==> *#[trigger] items@[i] == old(self)@.values_of_kind(key, kind)[i]
            },
    {
        let key_id = key.get_id();
        match self.keys_map.get(&key_id) {
            None => None,
            Some(entry) => {
                proof {
                    assert(self@.key_index.contains_key(key));
                    assert(self@.key_index[key].1 == entry.1@);
                    assert forall|i: int| 0 <= i < entry.1.len() implies self@.values.contains_key(
                        #[trigger] entry.1@[i],
                    ) by {
                        assert(self@.key_index[key].1[i] == entry.1@[i]);
                    }
                }
                let slots = slots_of_kind(&self.values, &entry.1, kind);
                proof {
                    lemma_filter_contains_all(entry.1@, slot_has_kind(self@.values, kind), self@.values.dom());
                }
                Some(collect_values(&self.values, &slots))
            },
        }
    }

    /// The keys related to a value the same as `value`, in order; `None`
    /// when no value has the id of `value`.
    pub fn get_value(&mut self, value: AnyValue) -> (found: Option<Vec<&usize>>)
        requires
            old(self).wf(),
        ensures
            *final(self) == *old(self),
            found is Some <==> old(self)@.value_index.contains_key(id_of(value)),
            found matches Some(items) ==> {
                &&& items@.len() == old(self)@.keys_with_value(id_of(value), value).len()
                &&& forall|i: int|
                    0 <= i < items@.len() ==> *#[trigger] items@[i] == old(self)@.keys_with_value(
                        id_of(value),
                        value,
                    )[i]
            },
    {
        let value_id = value.get_id();
        match self.values_map.get(&value_id) {
            None => None,
            Some(entry) => {
                let ghost relations = entry.1@;
                proof {
                    assert(self@.value_index.contains_key(value_id));
                    assert(self@.value_index[value_id].1 == relations);
                    assert forall|i: int| 0 <= i < entry.1.len() implies self@.values.contains_key(
                        #[trigger] entry.1@[i].1,
                    ) && self@.keys.contains_key(entry.1@[i].0) by {
                        assert(self@.value_index[value_id].1[i] == entry.1@[i]);
                        assert(self@.keys.contains_key(self@.value_index[value_id].1[i].0));
                    }
                }
                let matching = relations_with_value(&self.values, &entry.1, &value);
                proof {
                    let pred = relation_has_value(self@.values, value);
                    lemma_filter_facts_pairs(relations, pred);
                    assert forall|i: int| 0 <= i < matching.len() implies self@.keys.contains_key(
                        #[trigger] matching@[i].0,
                    ) by {
                        assert(relations.filter(pred).contains(matching@[i]));
                        let k = choose|k: int| 0 <= k < relations.len() && relations[k] == matching@[i];
                        assert(self@.keys.contains_key(relations[k].0));
                    }
                }
                Some(collect_related_keys(&self.keys, &matching))
            },
        }
    }
}

impl BirelationalAnyValueMap {
    /// Inserts `value` under `value_id` for a key already in the map: the
    /// value is stored anew, appended to the key's values and, as a relation
    /// with the key, to the relations of `value_id`. A key not yet in the map
    /// is refused with a panic, which `requires` keeps out.
    pub fn insert_boxed_ref(&mut self, key: &usize, value_id: usize, value: AnyValue)
        requires
            old(self).wf(),
            old(self)@.key_index.contains_key(*key),
            old(self)@.has_room_for(*key),
        ensures
            final(self).wf(),
            old(self)@.insert_slots_ok(*key, final(self)@.key_index[*key].0, final(self)@.key_index[*key].1.last()),
            old(self)@.new_slots_last(*key, final(self)@.key_index[*key].0, final(self)@.key_index[*key].1.last()),
            final(self)@ == old(self)@.inserted(
                *key,
                value_id,
                value,
                final(self)@.key_index[*key].0,
                final(self)@.key_index[*key].1.last(),
            ),
    {
        let ghost pre = self@;
        let key_id = key.get_id();
        let key_idx = self.keys_map.get(&key_id).unwrap().0;
        let value_idx = value_slots_insert(&mut self.values, value);
        push_value_slot(&mut self.keys_map, key_id, key_idx, value_idx);
        push_relation(&mut self.values_map, value_id, value_idx, (key_idx, value_idx));
        proof {
            assert(pre.insert_slots_ok(*key, key_idx, value_idx));
            pre.lemma_inserted_wf(*key, value_id, value, key_idx, value_idx);
            assert(self@ =~= pre.inserted(*key, value_id, value, key_idx, value_idx));
        }
    }

    /// Inserts `value` under `value_id` for `key`: a key whose id is new is
    /// stored first; the value is stored anew, appended to the key's values
    /// and, as a relation with the key, to the relations of `value_id`.
    pub fn insert_boxed(&mut self, key: usize, value_id: usize, value: AnyValue)
        requires
            old(self).wf(),
            old(self)@.has_room_for(key),
        ensures
            final(self).wf(),
            old(self)@.insert_slots_ok(key, final(self)@.key_index[key].0, final(self)@.key_index[key].1.last()),
            old(self)@.new_slots_last(key, final(self)@.key_index[key].0, final(self)@.key_index[key].1.last()),
            final(self)@ == old(self)@.inserted(
                key,
                value_id,
                value,
                final(self)@.key_index[key].0,
                final(self)@.key_index[key].1.last(),
            ),
    {
        let ghost pre = self@;
        let key_id = key.get_id();
        if self.keys_map.contains_key(&key_id) {
            self.insert_boxed_ref(&key, value_id, value);
        } else {
            let value_idx = value_slots_insert(&mut self.values, value);
            let key_idx = key_slots_insert(&mut self.keys, key);
            push_value_slot(&mut self.keys_map, key_id, key_idx, value_idx);
            push_relation(&mut self.values_map, value_id, value_idx, (key_idx, value_idx));
            proof {
                assert(pre.insert_slots_ok(key, key_idx, value_idx));
                pre.lemma_inserted_wf(key, value_id, value, key_idx, value_idx);
                assert(self@ =~= pre.inserted(key, value_id, value, key_idx, value_idx));
            }
        }
    }

    /// `insert_boxed_ref` with the id of `value`.
    pub fn insert_ref(&mut self, key: &usize, value: AnyValue)
        requires
            old(self).wf(),
            old(self)@.key_index.contains_key(*key),
            old(self)@.has_room_for(*key),
        ensures
            final(self).wf(),
            old(self)@.insert_slots_ok(*key, final(self)@.key_index[*key].0, final(self)@.key_index[*key].1.last()),
            old(self)@.new_slots_last(*key, final(self)@.key_index[*key].0, final(self)@.key_index[*key].1.last()),
            final(self)@ == old(self)@.inserted(
                *key,
                id_of(value),
                value,
                final(self)@.key_index[*key].0,
                final(self)@.key_index[*key].1.last(),
            ),
    {
        let value_id = value.get_id();
        self.insert_boxed_ref(key, value_id, value);
    }

    /// `insert_boxed` with the id of `value`.
    pub fn insert(&mut self, key: usize, value: AnyValue)
        requires
            old(self).wf(),
            old(self)@.has_room_for(key),
        ensures
            final(self).wf(),
            old(self)@.insert_slots_ok(key, final(self)@.key_index[key].0, final(self)@.key_index[key].1.last()),
            old(self)@.new_slots_last(key, final(self)@.key_index[key].0, final(self)@.key_index[key].1.last()),
            final(self)@ == old(self)@.inserted(
                key,
                id_of(value),
                value,
                final(self)@.key_index[key].0,
                final(self)@.key_index[key].1.last(),
            ),
    {
        let value_id = value.get_id();
        self.insert_boxed(key, value_id, value);
    }

    /// Undoes the relations of `key` with values the same as `value`: the
    /// key's list drops every value the same as `value`, and the relations
    /// filed under the id of `value` drop those of a key equal to `key` with a
    /// value the same as `value`. Stored keys and values stay.
    pub fn remove(&mut self, key: usize, value: AnyValue)
        requires
            old(self).wf(),
        ensures
            final(self).wf(),
            final(self)@ == old(self)@.removed(key, value),
    {
        let ghost pre = self@;
        let key_id = key.get_id();
        if self.keys_map.contains_key(&key_id) {
            let entry = self.keys_map.remove(&key_id).unwrap();
            assert(entry.1@ == pre.key_index[key].1);
            assert forall|i: int| 0 <= i < entry.1.len() implies pre.values.contains_key(#[trigger] entry.1@[i]) by {
                assert(pre.key_index.contains_key(key));
                assert(pre.key_index[key].1[i] == entry.1@[i]);
            }
            let kept = slots_differing(&self.values, entry.1, &value);
            self.keys_map.insert(key_id, (entry.0, kept));
        }
        let value_id = value.get_id();
        if self.values_map.contains_key(&value_id) {
            let entry = self.values_map.remove(&value_id).unwrap();
            assert(entry.1@ == pre.value_index[value_id].1);
            assert forall|i: int| 0 <= i < entry.1.len() implies pre.keys.contains_key(#[trigger] entry.1@[i].0)
                && pre.values.contains_key(entry.1@[i].1) by {
                assert(pre.value_index.contains_key(value_id));
                assert(pre.value_index[value_id].1[i] == entry.1@[i]);
                assert(pre.keys.contains_key(pre.value_index[value_id].1[i].0));
            }
            let kept = relations_differing(&self.keys, &self.values, entry.1, key, &value);
            self.values_map.insert(value_id, (entry.0, kept));
        }
        proof {
            pre.lemma_removed_wf(key, value);
            assert(self@.key_index =~= pre.removed(key, value).key_index);
            assert(self@.value_index =~= pre.removed(key, value).value_index);
            assert(self@ =~= pre.removed(key, value));
        }
    }
}

impl Default for BirelationalAnyValueMap {
    fn default() -> (map: Self)
        ensures
            map.wf(),
            map@.keys.dom() == Set::<u64>::empty(),
            map@.values.dom() == Set::<u64>::empty(),
            map@.key_index.dom() == Set::<usize>::empty(),
            map@.value_index.dom() == Set::<usize>::empty(),
    {
        Self::new()
    }
}

/// Files `id` at key slot `h`, keeping the slot it has, and appends value
/// slot `g` to its list.
fn push_value_slot(index: &mut HashMap<usize, (u64, Vec<u64>)>, id: usize, h: u64, g: u64)
    requires
        old(index)@.contains_key(id) ==> old(index)@[id].0 == h,
    ensures
        key_index_view(final(index)@) == key_index_view(old(index)@).insert(
            id,
            (h, value_slots_of(key_index_view(old(index)@), id).push(g)),
        ),
{
    let ghost pre = key_index_view(index@);
    let mut list: Vec<u64> = match index.remove(&id) {
        Some(entry) => entry.1,
        None => Vec::new(),
    };
    assert(list@ == value_slots_of(pre, id));
    list.push(g);
    index.insert(id, (h, list));
    assert(key_index_view(index@) =~= pre.insert(id, (h, value_slots_of(pre, id).push(g))));
}

/// Appends relation `r` to those of `id`; an id seen for the first time is
/// filed with `first` as its first value slot.
fn push_relation(index: &mut HashMap<usize, (u64, Vec<(u64, u64)>)>, id: usize, first: u64, r: (u64, u64))
    ensures
        value_index_view(final(index)@) == value_index_view(old(index)@).insert(
            id,
            (
                if old(index)@.contains_key(id) {
                    old(index)@[id].0
                } else {
                    first
                },
                relations_of(value_index_view(old(index)@), id).push(r),
            ),
        ),
{
    let ghost pre = value_index_view(index@);
    let ghost old_index = index@;
    let (slot, mut list) = match index.remove(&id) {
        Some(entry) => entry,
        None => (first, Vec::new()),
    };
    assert(list@ == relations_of(pre, id));
    list.push(r);
    index.insert(id, (slot, list));
    assert(value_index_view(index@) =~= pre.insert(
        id,
        (if old_index.contains_key(id) { old_index[id].0 } else { first }, relations_of(pre, id).push(r)),
    ));
}

impl AnyMapView {
    /// An insertion keeps a map well formed.
    pub proof fn lemma_inserted_wf(self, key: usize, value_id: usize, value: AnyValue, kh: u64, vh: u64)
        requires
            self.wf(),
            self.insert_slots_ok(key, kh, vh),
        ensures
            self.inserted(key, value_id, value, kh, vh).wf(),
    {
        let n = self.inserted(key, value_id, value, kh, vh);
        assert forall|kid: usize| #[trigger] n.key_index.contains_key(kid) implies {
            &&& n.keys.contains_key(n.key_index[kid].0)
            &&& forall|i: int| 0 <= i < n.key_index[kid].1.len() ==> n.values.contains_key(#[trigger] n.key_index[kid].1[i])
        } by {
            if kid != key {
                assert(self.key_index.contains_key(kid));
            }
            assert forall|i: int| 0 <= i < n.key_index[kid].1.len() implies n.values.contains_key(
                #[trigger] n.key_index[kid].1[i],
            ) by {
                if kid != key || i < n.key_index[kid].1.len() - 1 {
                    assert(self.key_index.contains_key(kid));
                    assert(n.key_index[kid].1[i] == self.key_index[kid].1[i]);
                    assert(self.values.contains_key(self.key_index[kid].1[i]));
                }
            }
        }
        assert forall|vid: usize| #[trigger] n.value_index.contains_key(vid) implies {
            &&& n.values.contains_key(n.value_index[vid].0)
            &&& forall|i: int|
                0 <= i < n.value_index[vid].1.len() ==> {
                    &&& n.keys.contains_key(#[trigger] n.value_index[vid].1[i].0)
                    &&& n.values.contains_key(n.value_index[vid].1[i].1)
                }
        } by {
            if vid != value_id || self.value_index.contains_key(vid) {
                assert(self.value_index.contains_key(vid));
            }
            assert forall|i: int| 0 <= i < n.value_index[vid].1.len() implies {
                &&& n.keys.contains_key(#[trigger] n.value_index[vid].1[i].0)
                &&& n.values.contains_key(n.value_index[vid].1[i].1)
            } by {
                if vid != value_id || i < n.value_index[vid].1.len() - 1 {
                    assert(self.value_index.contains_key(vid));
                    assert(n.value_index[vid].1[i] == self.value_index[vid].1[i]);
                    assert(self.keys.contains_key(self.value_index[vid].1[i].0));
                }
            }
        }
    }

    /// A removal keeps a map well formed.
    pub proof fn lemma_removed_wf(self, key: usize, value: AnyValue)
        requires
            self.wf(),
        ensures
            self.removed(key, value).wf(),
    {
        let r = self.removed(key, value);
        assert forall|kid: usize| #[trigger] r.key_index.contains_key(kid) implies {
            &&& r.keys.contains_key(r.key_index[kid].0)
            &&& forall|i: int| 0 <= i < r.key_index[kid].1.len() ==> r.values.contains_key(#[trigger] r.key_index[kid].1[i])
        } by {
            assert(self.key_index.contains_key(kid));
            if kid == key {
                lemma_filter_contains_all(self.key_index[kid].1, slot_differs(self.values, value), self.values.dom());
            }
        }
        assert forall|vid: usize| #[trigger] r.value_index.contains_key(vid) implies {
            &&& r.values.contains_key(r.value_index[vid].0)
            &&& forall|i: int|
                0 <= i < r.value_index[vid].1.len() ==> {
                    &&& r.keys.contains_key(#[trigger] r.value_index[vid].1[i].0)
                    &&& r.values.contains_key(r.value_index[vid].1[i].1)
                }
        } by {
            assert(self.value_index.contains_key(vid));
            if vid == id_of(value) {
                let s = self.value_index[vid].1;
                let pred = relation_differs(self.keys, self.values, key, value);
                lemma_filter_facts_pairs(s, pred);
                assert forall|i: int| 0 <= i < s.filter(pred).len() implies {
                    &&& r.keys.contains_key(#[trigger] r.value_index[vid].1[i].0)
                    &&& r.values.contains_key(r.value_index[vid].1[i].1)
                } by {
                    assert(s.filter(pred).contains(s.filter(pred)[i]));
                    let k = choose|k: int| 0 <= k < s.len() && s[k] == s.filter(pred)[i];
                    assert(self.keys.contains_key(s[k].0));
                }
            }
        }
        if self.key_index.contains_key(key) {
            let s = self.key_index[key].1;
            let pred = slot_differs(self.values, value);
            lemma_filter_facts(s, pred);
            assert forall|k1: usize, k2: usize, i: int, j: int|
                k1 != k2 && r.key_index.contains_key(k1) && r.key_index.contains_key(k2) && 0 <= i
                    < r.key_index[k1].1.len() && 0 <= j < r.key_index[k2].1.len() implies #[trigger] r.key_index[k1].1[i]
                != #[trigger] r.key_index[k2].1[j] by {
                if k1 == key {
                    assert(s.filter(pred).contains(r.key_index[k1].1[i]));
                    let a = choose|a: int| 0 <= a < s.len() && s[a] == r.key_index[k1].1[i];
                    assert(self.key_index[k1].1[a] != self.key_index[k2].1[j]);
                } else if k2 == key {
                    assert(s.filter(pred).contains(r.key_index[k2].1[j]));
                    let b = choose|b: int| 0 <= b < s.len() && s[b] == r.key_index[k2].1[j];
                    assert(self.key_index[k1].1[i] != self.key_index[k2].1[b]);
                } else {
                    assert(self.key_index[k1].1[i] != self.key_index[k2].1[j]);
                }
            }
        }
    }
}

impl AnyMapView {
    /// This map with the value at slot `h` replaced by `value`.
    pub open spec fn with_value(self, h: u64, value: AnyValue) -> AnyMapView {
        AnyMapView { values: self.values.insert(h, value), ..self }
    }

    /// This map with the key at slot `h` replaced by `key`.
    pub open spec fn with_key(self, h: u64, key: usize) -> AnyMapView {
        AnyMapView { keys: self.keys.insert(h, key), ..self }
    }

    /// Replacing a stored value keeps a map well formed.
    pub proof fn lemma_with_value_wf(self, h: u64, value: AnyValue)
        requires
            self.wf(),
            self.values.contains_key(h),
        ensures
            self.with_value(h, value).wf(),
    {
        let n = self.with_value(h, value);
        assert(n.values.dom() =~= self.values.dom());
        assert forall|vid: usize| #[trigger] n.value_index.contains_key(vid) implies {
            &&& n.values.contains_key(n.value_index[vid].0)
            &&& forall|i: int|
                0 <= i < n.value_index[vid].1.len() ==> {
                    &&& n.keys.contains_key(#[trigger] n.value_index[vid].1[i].0)
                    &&& n.values.contains_key(n.value_index[vid].1[i].1)
                }
        } by {
            assert forall|i: int| 0 <= i < n.value_index[vid].1.len() implies {
                &&& n.keys.contains_key(#[trigger] n.value_index[vid].1[i].0)
                &&& n.values.contains_key(n.value_index[vid].1[i].1)
            } by {
                assert(self.keys.contains_key(self.value_index[vid].1[i].0));
            }
        }
    }

    /// Replacing a stored key keeps a map well formed.
    pub proof fn lemma_with_key_wf(self, h: u64, key: usize)
        requires
            self.wf(),
            self.keys.contains_key(h),
        ensures
            self.with_key(h, key).wf(),
    {
        let n = self.with_key(h, key);
        assert(n.keys.dom() =~= self.keys.dom());
        assert forall|vid: usize| #[trigger] n.value_index.contains_key(vid) implies {
            &&& n.values.contains_key(n.value_index[vid].0)
            &&& forall|i: int|
                0 <= i < n.value_index[vid].1.len() ==> {
                    &&& n.keys.contains_key(#[trigger] n.value_index[vid].1[i].0)
                    &&& n.values.contains_key(n.value_index[vid].1[i].1)
                }
        } by {
            assert forall|i: int| 0 <= i < n.value_index[vid].1.len() implies {
                &&& n.keys.contains_key(#[trigger] n.value_index[vid].1[i].0)
                &&& n.values.contains_key(n.value_index[vid].1[i].1)
            } by {
                assert(self.keys.contains_key(self.value_index[vid].1[i].0));
            }
        }
    }
}

/// Write access to stored values of one kind, by position: item `i` is the
/// value at slot `handles[i]`. The map keeps what is written once the access
/// ends. The fields are public because the contracts that tie the map to the
/// access name them; `get` and `set` check the position, the slot and the
/// kind, so an access built by hand does no harm.
pub struct AnyValuesMut<'a> {
    pub map: &'a mut BirelationalAnyValueMap,
    pub handles: Vec<u64>,
    pub kind: ValueKind,
}

impl<'a> AnyValuesMut<'a> {
    pub open spec fn map_view(&self) -> AnyMapView {
        self.map@
    }

    pub open spec fn slots(&self) -> Seq<u64> {
        self.handles@
    }

    /// Whether position `i` names a slot that holds a value.
    pub open spec fn holds(&self, i: int) -> bool {
        0 <= i < self.handles@.len() && self.map@.values.contains_key(self.handles@[i])
    }

    /// The number of values.
    pub fn len(&self) -> (n: usize)
        ensures
            n == self.slots().len(),
    {
        self.handles.len()
    }

    /// Value `i`; `None` when there is no such position or its slot holds
    /// nothing.
    pub fn get(&self, i: usize) -> (item: Option<&AnyValue>)
        ensures
            item is Some <==> self.holds(i as int),
            item matches Some(v) ==> *v == self.map_view().values[self.slots()[i as int]],
    {
        if i >= self.handles.len() {
            return None;
        }
        let h = self.handles[i];
        if value_slots_live(&self.map.values, h) {
            value_slots_get(&self.map.values, h)
        } else {
            None
        }
    }

    /// Overwrites value `i` with a value of the access's kind and tells
    /// whether it did; it does nothing when there is no such position, its
    /// slot holds nothing or `item` is of another kind. The map keeps the
    /// new value once this access ends.
    pub fn set(&mut self, i: usize, item: AnyValue) -> (written: bool)
        ensures
            final(self).slots() == old(self).slots(),
            final(self).kind == old(self).kind,
            written <==> old(self).holds(i as int) && kind_of(item) == old(self).kind,
            written ==> final(self).map_view() == old(self).map_view().with_value(old(self).slots()[i as int], item),
            !written ==> final(self).map_view() == old(self).map_view(),
            old(self).map.wf() ==> final(self).map.wf(),
            *final(final(self).map) == *final(old(self).map),
    {
        if i >= self.handles.len() {
            return false;
        }
        let h = self.handles[i];
        let ghost pre = self.map@;
        if !value_slots_live(&self.map.values, h) || item.kind() != self.kind {
            return false;
        }
        value_slots_set(&mut self.map.values, h, item);
        proof {
            assert(self.map@ =~= pre.with_value(h, item));
            if pre.wf() {
                pre.lemma_with_value_wf(h, item);
            }
        }
        true
    }
}

/// Write access to stored keys, by position: item `i` is the key at slot
/// `handles[i]`. The map keeps what is written once the access ends. The
/// fields are public for the reason given at `AnyValuesMut`; `get` and `set`
/// check the position and the slot.
pub struct AnyKeysMut<'a> {
    pub map: &'a mut BirelationalAnyValueMap,
    pub handles: Vec<u64>,
}

impl<'a> AnyKeysMut<'a> {
    pub open spec fn map_view(&self) -> AnyMapView {
        self.map@
    }

    pub open spec fn slots(&self) -> Seq<u64> {
        self.handles@
    }

    /// Whether position `i` names a slot that holds a key.
    pub open spec fn holds(&self, i: int) -> bool {
        0 <= i < self.handles@.len() && self.map@.keys.contains_key(self.handles@[i])
    }

    /// The number of keys.
    pub fn len(&self) -> (n: usize)
        ensures
            n == self.slots().len(),
    {
        self.handles.len()
    }

    /// Key `i`; `None` when there is no such position or its slot holds
    /// nothing.
    pub fn get(&self, i: usize) -> (item: Option<usize>)
        ensures
            item is Some <==> self.holds(i as int),
            item matches Some(k) ==> k == self.map_view().keys[self.slots()[i as int]],
    {
        if i >= self.handles.len() {
            return None;
        }
        let h = self.handles[i];
        if key_slots_live(&self.map.keys, h) {
            Some(*key_slots_get(&self.map.keys, h).unwrap())
        } else {
            None
        }
    }

    /// Overwrites key `i` and tells whether it did; it does nothing when
    /// there is no such position or its slot holds nothing. The key stays
    /// filed under the id it had; the map keeps it once this access ends.
    pub fn set(&mut self, i: usize, item: usize) -> (written: bool)
        ensures
            final(self).slots() == old(self).slots(),
            written <==> old(self).holds(i as int),
            written ==> final(self).map_view() == old(self).map_view().with_key(old(self).slots()[i as int], item),
            !written ==> final(self).map_view() == old(self).map_view(),
            old(self).map.wf() ==> final(self).map.wf(),
            *final(final(self).map) == *final(old(self).map),
    {
        if i >= self.handles.len() {
            return false;
        }
        let h = self.handles[i];
        let ghost pre = self.map@;
        if !key_slots_live(&self.map.keys, h) {
            return false;
        }
        key_slots_set(&mut self.map.keys, h, item);
        proof {
            assert(self.map@ =~= pre.with_key(h, item));
            if pre.wf() {
                pre.lemma_with_key_wf(h, item);
            }
        }
        true
    }
}

impl BirelationalAnyValueMap {
    /// Write access to the values of kind `kind` inserted with the key of id
    /// `key`, in the order `get` lists them; `None` when no key has that id.
    pub fn get_by_id_mut(&mut self, key: usize, kind: ValueKind) -> (access: Option<AnyValuesMut<'_>>)
        requires
            old(self).wf(),
        ensures
            access is Some <==> old(self)@.key_index.contains_key(key),
            access matches Some(a) ==> {
                &&& a.map.wf()
                &&& a.map_view() == old(self)@
                &&& a.slots() == old(self)@.key_index[key].1.filter(slot_has_kind(old(self)@.values, kind))
                &&& a.kind == kind
                &&& *final(self) == *final(a.map)
            },
            access is None ==> *final(self) == *old(self),
    {
        let slots = match self.keys_map.get(&key) {
            None => return None,
            Some(entry) => {
                proof {
                    assert(self@.key_index.contains_key(key));
                    assert(self@.key_index[key].1 == entry.1@);
                    assert forall|i: int| 0 <= i < entry.1.len() implies self@.values.contains_key(
                        #[trigger] entry.1@[i],
                    ) by {
                        assert(self@.key_index[key].1[i] == entry.1@[i]);
                    }
                }
                slots_of_kind(&self.values, &entry.1, kind)
            },
        };
        proof {
            let s = self@.key_index[key].1;
            let pred = slot_has_kind(self@.values, kind);
            lemma_filter_contains_all(s, pred, self@.values.dom());
            assert forall|i: int| 0 <= i < slots@.len() implies kind_of(self@.values[#[trigger] slots@[i]]) == kind by {
                s.lemma_filter_pred(pred, i);
            }
        }
        Some(AnyValuesMut { map: self, handles: slots, kind })
    }

    /// Write access to the values of kind `kind` inserted with `key`, found
    /// by its id.
    pub fn get_mut(&mut self, key: usize, kind: ValueKind) -> (access: Option<AnyValuesMut<'_>>)
        requires
            old(self).wf(),
        ensures
            access is Some <==> old(self)@.key_index.contains_key(key),
            access matches Some(a) ==> {
                &&& a.map.wf()
                &&& a.map_view() == old(self)@
                &&& a.slots() == old(self)@.key_index[key].1.filter(slot_has_kind(old(self)@.values, kind))
                &&& a.kind == kind
                &&& *final(self) == *final(a.map)
            },
            access is None ==> *final(self) == *old(self),
    {
        self.get_by_id_mut(key.get_id(), kind)
    }

    /// Every stored value of kind `kind`, by slot.
    pub fn values_of(&self, kind: ValueKind) -> (items: Vec<&AnyValue>)
        requires
            self.wf(),
        ensures
            exists|order: Seq<u64>|
                {
                    &&& is_slot_order(self@.values.dom(), order)
                    &&& items@.len() == order.filter(slot_has_kind(self@.values, kind)).len()
                    &&& forall|i: int|
                        0 <= i < items@.len() ==> *#[trigger] items@[i] == self@.values[order.filter(
                            slot_has_kind(self@.values, kind),
                        )[i]]
                },
    {
        let order = value_slots_order(&self.values);
        let slots = slots_of_kind(&self.values, &order, kind);
        proof {
            lemma_filter_contains_all(order@, slot_has_kind(self@.values, kind), self@.values.dom());
        }
        let items = collect_values(&self.values, &slots);
        assert({
            &&& is_slot_order(self@.values.dom(), order@)
            &&& items@.len() == order@.filter(slot_has_kind(self@.values, kind)).len()
            &&& forall|i: int|
                0 <= i < items@.len() ==> *#[trigger] items@[i] == self@.values[order@.filter(
                    slot_has_kind(self@.values, kind),
                )[i]]
        });
        items
    }

    /// Write access to every stored value of kind `kind`, by slot.
    pub fn values_of_mut(&mut self, kind: ValueKind) -> (access: AnyValuesMut<'_>)
        requires
            old(self).wf(),
        ensures
            access.map.wf(),
            access.map_view() == old(self)@,
            access.kind == kind,
            exists|order: Seq<u64>|
                is_slot_order(old(self)@.values.dom(), order) && access.slots() == order.filter(
                    slot_has_kind(old(self)@.values, kind),
                ),
            *final(self) == *final(access.map),
    {
        let order = value_slots_order(&self.values);
        let slots = slots_of_kind(&self.values, &order, kind);
        proof {
            let pred = slot_has_kind(self@.values, kind);
            lemma_filter_contains_all(order@, pred, self@.values.dom());
            assert forall|i: int| 0 <= i < slots@.len() implies kind_of(self@.values[#[trigger] slots@[i]]) == kind by {
                order@.lemma_filter_pred(pred, i);
            }
            assert(is_slot_order(self@.values.dom(), order@) && slots@ == order@.filter(pred));
        }
        AnyValuesMut { map: self, handles: slots, kind }
    }

    /// Every stored key, by slot.
    pub fn keys(&self) -> (items: Vec<&usize>)
        requires
            self.wf(),
        ensures
            exists|order: Seq<u64>|
                {
                    &&& is_slot_order(self@.keys.dom(), order)
                    &&& items@.len() == order.len()
                    &&& forall|i: int| 0 <= i < items@.len() ==> *#[trigger] items@[i] == self@.keys[order[i]]
                },
    {
        let order = key_slots_order(&self.keys);
        let mut items: Vec<&usize> = Vec::new();
        let mut i: usize = 0;
        while i < order.len()
            invariant
                0 <= i <= order.len(),
                is_slot_order(self@.keys.dom(), order@),
                items@.len() == i,
                forall|j: int| 0 <= j < i ==> *#[trigger] items@[j] == self@.keys[order@[j]],
            decreases order.len() - i,
        {
            items.push(key_slots_get(&self.keys, order[i]).unwrap());
            i += 1;
        }
        assert({
            &&& is_slot_order(self@.keys.dom(), order@)
            &&& items@.len() == order@.len()
            &&& forall|i: int| 0 <= i < items@.len() ==> *#[trigger] items@[i] == self@.keys[order@[i]]
        });
        items
    }

    /// Write access to every stored key, by slot.
    pub fn keys_mut(&mut self) -> (access: AnyKeysMut<'_>)
        requires
            old(self).wf(),
        ensures
            access.map.wf(),
            access.map_view() == old(self)@,
            is_slot_order(old(self)@.keys.dom(), access.slots()),
            *final(self) == *final(access.map),
    {
        let order = key_slots_order(&self.keys);
        AnyKeysMut { map: self, handles: order }
    }
}

/// Every slot that a filter of `s` keeps is among those of `s`; so when all
/// of `s` lie in `dom`, so do those it keeps.
proof fn lemma_filter_contains_all(s: Seq<u64>, pred: spec_fn(u64) -> bool, dom: Set<u64>)
    requires
        forall|i: int| 0 <= i < s.len() ==> dom.contains(#[trigger] s[i]),
    ensures
        forall|i: int| 0 <= i < s.filter(pred).len() ==> dom.contains(#[trigger] s.filter(pred)[i]),
{
    broadcast use vstd::seq_lib::group_filter_ensures;
    assert forall|i: int| 0 <= i < s.filter(pred).len() implies dom.contains(#[trigger] s.filter(pred)[i]) by {
        let x = s.filter(pred)[i];
        assert(s.filter(pred).contains(x));
        s.lemma_filter_contains_rev(pred, x);
        let k = choose|k: int| 0 <= k < s.len() && s[k] == x;
        assert(dom.contains(s[k]));
    }
}

/// Every relation that a filter of `s` keeps is among those of `s`.
proof fn lemma_filter_facts_pairs(s: Seq<(u64, u64)>, pred: spec_fn((u64, u64)) -> bool)
    ensures
        forall|x: (u64, u64)| #[trigger] s.filter(pred).contains(x) ==> s.contains(x),
{
    assert forall|x: (u64, u64)| #[trigger] s.filter(pred).contains(x) implies s.contains(x) by {
        s.lemma_filter_contains_rev(pred, x);
    }
}

} // verus!
