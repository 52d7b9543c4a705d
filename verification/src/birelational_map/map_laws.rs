use vstd::prelude::*;
use crate::birelational_map::links::{lemma_filter_keeps_all, lemma_read_after_write, push_absent, lemma_push_absent_no_duplicates, lemma_filter_facts};
use crate::birelational_map::map::{MapView, Side, differs_from, links_of};

verus! {

/// Keeps the items that differ from `unwanted`.
pub open spec fn item_differs(unwanted: usize) -> spec_fn(usize) -> bool {
    |x: usize| x != unwanted
}

/// Reading the items of slots after dropping the slots whose item equals
/// `unwanted` is dropping those items after reading.
proof fn lemma_filter_then_read(s: Seq<u64>, store: Map<u64, usize>, unwanted: usize)
    ensures
        s.filter(differs_from(store, unwanted)).map_values(|h: u64| store[h])
            == s.map_values(|h: u64| store[h]).filter(item_differs(unwanted)),
    decreases s.len(),
{
    let read = |h: u64| store[h];
    if s.len() == 0 {
        reveal(Seq::filter);
        assert(s.filter(differs_from(store, unwanted)) =~= Seq::<u64>::empty());
        assert(s.map_values(read) =~= Seq::<usize>::empty());
        assert(s.map_values(read).filter(item_differs(unwanted)) =~= Seq::<usize>::empty());
        assert(s.filter(differs_from(store, unwanted)).map_values(read) =~= Seq::<usize>::empty());
    } else {
        let rest = s.drop_last();
        let last = s.last();
        lemma_filter_then_read(rest, store, unwanted);
        assert(s =~= rest.push(last));
        rest.lemma_filter_push(last, differs_from(store, unwanted));
        assert(s.map_values(read) =~= rest.map_values(read).push(store[last]));
        rest.map_values(read).lemma_filter_push(store[last], item_differs(unwanted));
        let kept = rest.filter(differs_from(store, unwanted));
        assert(kept.push(last).map_values(read) =~= kept.map_values(read).push(store[last]));
    }
}


/// Insert records the relation: afterwards the key id is filed at slot `kh`
/// and the value id at slot `vh` (the only ids it adds), the key's list holds the value's slot and
/// the value's list holds the key's slot, each once, and the map is still
/// well formed.
pub proof fn law_insert_relates(m: MapView, key: usize, value: usize, kh: u64, vh: u64)
    requires
        m.wf(),
        m.insert_slots_ok(key, value, kh, vh),
    ensures
        ({
            let n = m.inserted(key, value, kh, vh);
            &&& n.wf()
            &&& n.key_index[key].0 == kh
            &&& n.value_index[value].0 == vh
            &&& n.key_index[key].1.contains(vh)
            &&& n.value_index[value].1.contains(kh)
            &&& n.values_of(key).contains(n.values[vh])
            &&& n.keys_of(value).contains(n.keys[kh])
            &&& n.key_index.dom() == m.key_index.dom().insert(key)
            &&& n.value_index.dom() == m.value_index.dom().insert(value)
        }),
{
    let n = m.inserted(key, value, kh, vh);
    m.lemma_inserted_wf(key, value, kh, vh);
    lemma_push_absent_no_duplicates(links_of(m.key_index, key), vh);
    lemma_push_absent_no_duplicates(links_of(m.value_index, value), kh);
    assert(push_absent(links_of(m.key_index, key), vh).contains(vh));
    assert(push_absent(links_of(m.value_index, value), kh).contains(kh));
    let ks = n.key_index[key].1;
    let k = choose|k: int| 0 <= k < ks.len() && ks[k] == vh;
    assert(n.values_of(key)[k] == n.values[vh]);
    let vs = n.value_index[value].1;
    let j = choose|j: int| 0 <= j < vs.len() && vs[j] == kh;
    assert(n.keys_of(value)[j] == n.keys[kh]);
    assert(n.key_index.dom() =~= m.key_index.dom().insert(key));
    assert(n.value_index.dom() =~= m.value_index.dom().insert(value));
}

/// Insert appends: the values of the key are those it had (none if the key
/// id is new) followed by the item of the value's slot, unless the key was
/// already related to that slot; the value id keeps the item it had, or gets
/// `value` if it is new. The same holds of the keys of the value. No other
/// id's list changes.
pub proof fn law_insert_appends(m: MapView, key: usize, value: usize, kh: u64, vh: u64)
    requires
        m.wf(),
        m.insert_slots_ok(key, value, kh, vh),
    ensures
        ({
            let n = m.inserted(key, value, kh, vh);
            &&& n.values[vh] == (if m.value_index.contains_key(value) { m.values[vh] } else { value })
            &&& n.keys[kh] == (if m.key_index.contains_key(key) { m.keys[kh] } else { key })
            &&& !m.key_index.contains_key(key) ==> n.values_of(key) == seq![n.values[vh]]
            &&& m.key_index.contains_key(key) && m.key_index[key].1.contains(vh) ==> n.values_of(key)
                == m.values_of(key)
            &&& m.key_index.contains_key(key) && !m.key_index[key].1.contains(vh) ==> n.values_of(key)
                == m.values_of(key).push(n.values[vh])
            &&& !m.value_index.contains_key(value) ==> n.keys_of(value) == seq![n.keys[kh]]
            &&& m.value_index.contains_key(value) && m.value_index[value].1.contains(kh) ==> n.keys_of(
                value,
            ) == m.keys_of(value)
            &&& m.value_index.contains_key(value) && !m.value_index[value].1.contains(kh) ==> n.keys_of(
                value,
            ) == m.keys_of(value).push(n.keys[kh])
            &&& forall|kid: usize|
                kid != key && #[trigger] m.key_index.contains_key(kid) ==> n.values_of(kid) == m.values_of(kid)
            &&& forall|vid: usize|
                vid != value && #[trigger] m.value_index.contains_key(vid) ==> n.keys_of(vid) == m.keys_of(
                    vid,
                )
        }),
{
    let n = m.inserted(key, value, kh, vh);
    // The stores only grow, at slots no list held before.
    assert forall|kid: usize| #[trigger] m.key_index.contains_key(kid) implies n.values_of(kid).take(
        m.key_index[kid].1.len() as int,
    ) == m.values_of(kid) by {
        let s = m.key_index[kid].1;
        assert forall|i: int| 0 <= i < s.len() implies n.values[s[i]] == m.values[s[i]] by {
            assert(m.values.contains_key(s[i]));
        }
        if kid == key {
            assert(n.values_of(kid).take(s.len() as int) =~= m.values_of(kid));
        } else {
            assert(n.values_of(kid) =~= m.values_of(kid));
        }
    }
    assert forall|vid: usize| #[trigger] m.value_index.contains_key(vid) implies n.keys_of(vid).take(
        m.value_index[vid].1.len() as int,
    ) == m.keys_of(vid) by {
        let s = m.value_index[vid].1;
        assert forall|i: int| 0 <= i < s.len() implies n.keys[s[i]] == m.keys[s[i]] by {
            assert(m.keys.contains_key(s[i]));
        }
        if vid == value {
            assert(n.keys_of(vid).take(s.len() as int) =~= m.keys_of(vid));
        } else {
            assert(n.keys_of(vid) =~= m.keys_of(vid));
        }
    }
    if m.key_index.contains_key(key) {
        let s = m.key_index[key].1;
        if s.contains(vh) {
            assert(n.values_of(key) =~= n.values_of(key).take(s.len() as int));
        } else {
            assert(n.values_of(key) =~= n.values_of(key).take(s.len() as int).push(n.values[vh]));
        }
    } else {
        assert(n.values_of(key) =~= seq![n.values[vh]]);
    }
    if m.value_index.contains_key(value) {
        let s = m.value_index[value].1;
        if s.contains(kh) {
            assert(n.keys_of(value) =~= n.keys_of(value).take(s.len() as int));
        } else {
            assert(n.keys_of(value) =~= n.keys_of(value).take(s.len() as int).push(n.keys[kh]));
        }
    } else {
        assert(n.keys_of(value) =~= seq![n.keys[kh]]);
    }
    assert forall|kid: usize|
        kid != key && #[trigger] m.key_index.contains_key(kid) implies n.values_of(kid) == m.values_of(kid) by {
        assert(n.values_of(kid) =~= n.values_of(kid).take(m.key_index[kid].1.len() as int));
    }
    assert forall|vid: usize|
        vid != value && #[trigger] m.value_index.contains_key(vid) implies n.keys_of(vid) == m.keys_of(vid) by {
        assert(n.keys_of(vid) =~= n.keys_of(vid).take(m.value_index[vid].1.len() as int));
    }
}

/// Inserting the same relation a second time changes nothing.
pub proof fn law_insert_twice(m: MapView, key: usize, value: usize, kh: u64, vh: u64)
    requires
        m.wf(),
        m.insert_slots_ok(key, value, kh, vh),
    ensures
        ({
            let n = m.inserted(key, value, kh, vh);
            &&& n.insert_slots_ok(key, value, kh, vh)
            &&& n.inserted(key, value, kh, vh) == n
        }),
{
    let n = m.inserted(key, value, kh, vh);
    law_insert_relates(m, key, value, kh, vh);
    let n2 = n.inserted(key, value, kh, vh);
    assert(n2.keys =~= n.keys);
    assert(n2.values =~= n.values);
    assert(n2.key_index =~= n.key_index);
    assert(n2.value_index =~= n.value_index);
}

/// Remove undoes a relation: afterwards the key's values are those it had
/// with every item equal to `value` dropped, in the same order, and the
/// value's keys those it had with every item equal to `key` dropped. Items,
/// slots and all other lists stay as they were, and the map stays well
/// formed.
pub proof fn law_remove_unrelates(m: MapView, key: usize, value: usize)
    requires
        m.wf(),
    ensures
        ({
            let r = m.removed(key, value);
            &&& r.wf()
            &&& r.keys == m.keys
            &&& r.values == m.values
            &&& r.key_index.dom() == m.key_index.dom()
            &&& r.value_index.dom() == m.value_index.dom()
            &&& m.key_index.contains_key(key) ==> r.values_of(key) == m.values_of(key).filter(
                item_differs(value),
            )
            &&& m.value_index.contains_key(value) ==> r.keys_of(value) == m.keys_of(value).filter(
                item_differs(key),
            )
            &&& forall|kid: usize|
                kid != key && #[trigger] m.key_index.contains_key(kid) ==> r.key_index[kid] == m.key_index[kid]
            &&& forall|vid: usize|
                vid != value && #[trigger] m.value_index.contains_key(vid) ==> r.value_index[vid]
                    == m.value_index[vid]
        }),
{
    let r = m.removed(key, value);
    m.lemma_removed_wf(key, value);
    if m.key_index.contains_key(key) {
        lemma_filter_then_read(m.key_index[key].1, m.values, value);
        assert(r.values_of(key) =~= m.key_index[key].1.filter(differs_from(m.values, value)).map_values(
            |h: u64| m.values[h],
        ));
        assert(m.values_of(key) =~= m.key_index[key].1.map_values(|h: u64| m.values[h]));
    }
    if m.value_index.contains_key(value) {
        lemma_filter_then_read(m.value_index[value].1, m.keys, key);
        assert(r.keys_of(value) =~= m.value_index[value].1.filter(differs_from(m.keys, key)).map_values(
            |h: u64| m.keys[h],
        ));
        assert(m.keys_of(value) =~= m.value_index[value].1.map_values(|h: u64| m.keys[h]));
    }
    assert(r.key_index.dom() =~= m.key_index.dom());
    assert(r.value_index.dom() =~= m.value_index.dom());
}

/// A write through `ItemsMut` is read back: replacing the item at the
/// `i`-th value slot of a key makes it the `i`-th value of that key and
/// leaves the key's other values as they were; likewise for the keys of a
/// value.
pub proof fn law_write_then_read(m: MapView, side: Side, id: usize, i: int, x: usize)
    requires
        m.wf(),
        side == Side::Values ==> m.key_index.contains_key(id) && 0 <= i < m.key_index[id].1.len(),
        side == Side::Keys ==> m.value_index.contains_key(id) && 0 <= i < m.value_index[id].1.len(),
    ensures
        side == Side::Values ==> ({
            let w = m.written(side, m.key_index[id].1[i], x);
            &&& w.wf()
            &&& w.values_of(id) == m.values_of(id).update(i, x)
        }),
        side == Side::Keys ==> ({
            let w = m.written(side, m.value_index[id].1[i], x);
            &&& w.wf()
            &&& w.keys_of(id) == m.keys_of(id).update(i, x)
        }),
{
    if side == Side::Values {
        let s = m.key_index[id].1;
        let w = m.written(side, s[i], x);
        assert(m.values.contains_key(s[i]));
        assert(w.values.dom() =~= m.values.dom());
        m.lemma_written_wf(side, s[i], x);
        lemma_read_after_write(s, m.values, i, x);
        assert(w.values_of(id) =~= s.map_values(|h: u64| m.values.insert(s[i], x)[h]));
        assert(m.values_of(id) =~= s.map_values(|h: u64| m.values[h]));
    } else {
        let s = m.value_index[id].1;
        let w = m.written(side, s[i], x);
        assert(m.keys.contains_key(s[i]));
        m.lemma_written_wf(side, s[i], x);
        lemma_read_after_write(s, m.keys, i, x);
        assert(w.keys_of(id) =~= s.map_values(|h: u64| m.keys.insert(s[i], x)[h]));
        assert(m.keys_of(id) =~= s.map_values(|h: u64| m.keys[h]));
    }
}


/// Remove undoes an insert of a pair that was not related: when the value
/// id is new or holds `value`, and no value of the key equals `value`, the
/// key's list is again what it was (empty for a new key id); and when the
/// key's slot holds `key` and no key of the value equals `key`, the value's
/// list is again what it was (empty for a new value id).
pub proof fn law_remove_undoes_insert(m: MapView, key: usize, value: usize, kh: u64, vh: u64)
    requires
        m.wf(),
        m.insert_slots_ok(key, value, kh, vh),
        m.value_index.contains_key(value) ==> m.values[m.value_index[value].0] == value,
        m.key_index.contains_key(key) ==> !m.values_of(key).contains(value),
    ensures
        ({
            let n = m.inserted(key, value, kh, vh);
            let r = n.removed(key, value);
            &&& r.key_index[key] == (kh, links_of(m.key_index, key))
            &&& n.keys[kh] == key && (m.value_index.contains_key(value) ==> !m.keys_of(value).contains(key))
                ==> r.value_index[value] == (vh, links_of(m.value_index, value))
        }),
{
    let n = m.inserted(key, value, kh, vh);
    let l = links_of(m.key_index, key);
    assert(n.values[vh] == value);
    assert(!l.contains(vh)) by {
        if l.contains(vh) {
            let k = choose|k: int| 0 <= k < l.len() && l[k] == vh;
            assert(m.values.contains_key(l[k]));
            assert(m.values_of(key)[k] == m.values[vh]);
        }
    }
    assert(n.key_index[key].1 == l.push(vh));
    let p = differs_from(n.values, value);
    assert forall|i: int| 0 <= i < l.len() implies p(#[trigger] l[i]) by {
        assert(m.values.contains_key(l[i]));
        assert(m.values_of(key)[i] == m.values[l[i]]);
    }
    lemma_filter_keeps_all(l, p);
    l.lemma_filter_push(vh, p);
    if n.keys[kh] == key && (m.value_index.contains_key(value) ==> !m.keys_of(value).contains(key)) {
        let v = links_of(m.value_index, value);
        assert(!v.contains(kh)) by {
            if v.contains(kh) {
                let k = choose|k: int| 0 <= k < v.len() && v[k] == kh;
                assert(m.keys.contains_key(v[k]));
                assert(m.keys_of(value)[k] == m.keys[kh]);
            }
        }
        assert(n.value_index[value].1 == v.push(kh));
        let q = differs_from(n.keys, key);
        assert forall|i: int| 0 <= i < v.len() implies q(#[trigger] v[i]) by {
            assert(m.keys.contains_key(v[i]));
            assert(m.keys_of(value)[i] == m.keys[v[i]]);
        }
        lemma_filter_keeps_all(v, q);
        v.lemma_filter_push(kh, q);
    }
}

/// Every stored item is filed under itself: the item in the slot of an id is
/// that id, and each slot of a store is the slot of the id equal to its item.
/// So it is while items are only added by `insert` and never written through
/// `ItemsMut`.
pub open spec fn files_items_as_ids(m: MapView) -> bool {
    &&& forall|kid: usize| #[trigger] m.key_index.contains_key(kid) ==> m.keys[m.key_index[kid].0] == kid
    &&& forall|h: u64|
        #[trigger] m.keys.contains_key(h) ==> m.key_index.contains_key(m.keys[h]) && m.key_index[m.keys[h]].0 == h
    &&& forall|vid: usize| #[trigger] m.value_index.contains_key(vid) ==> m.values[m.value_index[vid].0] == vid
    &&& forall|h: u64|
        #[trigger] m.values.contains_key(h) ==> m.value_index.contains_key(m.values[h])
            && m.value_index[m.values[h]].0 == h
}

/// Each relation is recorded on both sides: a key lists a value exactly when
/// the value lists the key.
pub open spec fn relation_symmetric(m: MapView) -> bool {
    forall|kid: usize, vid: usize|
        #[trigger] m.key_index.contains_key(kid) && #[trigger] m.value_index.contains_key(vid) ==> (
        m.key_index[kid].1.contains(m.value_index[vid].0) <==> m.value_index[vid].1.contains(
            m.key_index[kid].0,
        ))
}

/// An empty map files its items under themselves and is symmetric.
pub proof fn law_empty_is_symmetric(m: MapView)
    requires
        m.keys.dom() == Set::<u64>::empty(),
        m.values.dom() == Set::<u64>::empty(),
        m.key_index.dom() == Set::<usize>::empty(),
        m.value_index.dom() == Set::<usize>::empty(),
    ensures
        files_items_as_ids(m),
        relation_symmetric(m),
{
    assert forall|kid: usize| !m.key_index.contains_key(kid) by {
        assert(!m.key_index.dom().contains(kid));
    }
    assert forall|vid: usize| !m.value_index.contains_key(vid) by {
        assert(!m.value_index.dom().contains(vid));
    }
    assert forall|h: u64| !m.keys.contains_key(h) && !m.values.contains_key(h) by {
        assert(!m.keys.dom().contains(h));
        assert(!m.values.dom().contains(h));
    }
}

/// Insert keeps the relation symmetric, in a map that files its items under
/// themselves; and it keeps filing them so.
pub proof fn law_insert_keeps_symmetry(m: MapView, key: usize, value: usize, kh: u64, vh: u64)
    requires
        m.wf(),
        files_items_as_ids(m),
        relation_symmetric(m),
        m.insert_slots_ok(key, value, kh, vh),
    ensures
        files_items_as_ids(m.inserted(key, value, kh, vh)),
        relation_symmetric(m.inserted(key, value, kh, vh)),
{
    let n = m.inserted(key, value, kh, vh);
    m.lemma_inserted_wf(key, value, kh, vh);
    let kl = links_of(m.key_index, key);
    let vl = links_of(m.value_index, value);
    lemma_push_absent_no_duplicates(kl, vh);
    lemma_push_absent_no_duplicates(vl, kh);
    assert(n.keys[kh] == key);
    assert(n.values[vh] == value);
    assert forall|kid: usize| #[trigger] n.key_index.contains_key(kid) implies n.keys[n.key_index[kid].0] == kid by {
        if kid != key {
            assert(m.key_index.contains_key(kid));
            assert(m.keys.contains_key(m.key_index[kid].0));
        }
    }
    assert forall|h: u64| #[trigger] n.keys.contains_key(h) implies n.key_index.contains_key(n.keys[h])
        && n.key_index[n.keys[h]].0 == h by {
        if h != kh {
            assert(m.keys.contains_key(h));
        }
    }
    assert forall|vid: usize| #[trigger] n.value_index.contains_key(vid) implies n.values[n.value_index[vid].0]
        == vid by {
        if vid != value {
            assert(m.value_index.contains_key(vid));
            assert(m.values.contains_key(m.value_index[vid].0));
        }
    }
    assert forall|h: u64| #[trigger] n.values.contains_key(h) implies n.value_index.contains_key(n.values[h])
        && n.value_index[n.values[h]].0 == h by {
        if h != vh {
            assert(m.values.contains_key(h));
        }
    }
    assert forall|kid: usize, vid: usize|
        #[trigger] n.key_index.contains_key(kid) && #[trigger] n.value_index.contains_key(vid) implies (
        n.key_index[kid].1.contains(n.value_index[vid].0) <==> n.value_index[vid].1.contains(
            n.key_index[kid].0,
        )) by {
        let kslot = n.key_index[kid].0;
        let vslot = n.value_index[vid].0;
        if kid == key && vid == value {
        } else if kid == key {
            assert(m.value_index.contains_key(vid));
            assert(m.values.contains_key(vslot));
            assert(vslot != vh);
            assert(n.key_index[kid].1.contains(vslot) <==> kl.contains(vslot));
            if !m.key_index.contains_key(key) {
                assert(!m.keys.contains_key(kh));
                if m.value_index[vid].1.contains(kh) {
                    let j = choose|j: int| 0 <= j < m.value_index[vid].1.len() && m.value_index[vid].1[j] == kh;
                    assert(m.keys.contains_key(m.value_index[vid].1[j]));
                }
            }
        } else if vid == value {
            assert(m.key_index.contains_key(kid));
            assert(m.keys.contains_key(kslot));
            assert(kslot != kh);
            assert(n.value_index[vid].1.contains(kslot) <==> vl.contains(kslot));
            if !m.value_index.contains_key(value) {
                assert(!m.values.contains_key(vh));
                if m.key_index[kid].1.contains(vh) {
                    let j = choose|j: int| 0 <= j < m.key_index[kid].1.len() && m.key_index[kid].1[j] == vh;
                    assert(m.values.contains_key(m.key_index[kid].1[j]));
                }
            }
        } else {
            assert(m.key_index.contains_key(kid));
            assert(m.value_index.contains_key(vid));
        }
    }
}

/// Remove keeps the relation symmetric, in a map that files its items under
/// themselves; and it keeps filing them so.
pub proof fn law_remove_keeps_symmetry(m: MapView, key: usize, value: usize)
    requires
        m.wf(),
        files_items_as_ids(m),
        relation_symmetric(m),
    ensures
        files_items_as_ids(m.removed(key, value)),
        relation_symmetric(m.removed(key, value)),
{
    let r = m.removed(key, value);
    if m.key_index.contains_key(key) {
        lemma_filter_facts(m.key_index[key].1, differs_from(m.values, value));
    }
    if m.value_index.contains_key(value) {
        lemma_filter_facts(m.value_index[value].1, differs_from(m.keys, key));
    }
    assert forall|kid: usize| #[trigger] r.key_index.contains_key(kid) implies m.key_index.contains_key(kid) by {}
    assert forall|vid: usize| #[trigger] r.value_index.contains_key(vid) implies m.value_index.contains_key(vid) by {}
    assert forall|kid: usize, vid: usize|
        #[trigger] r.key_index.contains_key(kid) && #[trigger] r.value_index.contains_key(vid) implies (
        r.key_index[kid].1.contains(r.value_index[vid].0) <==> r.value_index[vid].1.contains(
            r.key_index[kid].0,
        )) by {
        let kslot = m.key_index[kid].0;
        let vslot = m.value_index[vid].0;
        assert(m.values[vslot] == vid);
        assert(m.keys[kslot] == kid);
        assert(m.key_index[kid].1.contains(vslot) <==> m.value_index[vid].1.contains(kslot));
    }
}

/// In a map that files its items under themselves and is symmetric, the
/// relation holds item by item: a key's values name the value exactly when
/// the value's keys name the key, every listed item is a filed id, and no
/// list names an item twice.
pub proof fn law_symmetric_items(m: MapView)
    requires
        m.wf(),
        files_items_as_ids(m),
        relation_symmetric(m),
    ensures
        forall|kid: usize, vid: usize|
            #[trigger] m.key_index.contains_key(kid) && #[trigger] m.value_index.contains_key(vid) ==> (
            m.values_of(kid).contains(vid) <==> m.keys_of(vid).contains(kid)),
        forall|kid: usize| #[trigger] m.key_index.contains_key(kid) ==> m.values_of(kid).no_duplicates(),
        forall|vid: usize| #[trigger] m.value_index.contains_key(vid) ==> m.keys_of(vid).no_duplicates(),
        forall|kid: usize, i: int|
            m.key_index.contains_key(kid) && 0 <= i < m.values_of(kid).len() ==> m.value_index.contains_key(
                #[trigger] m.values_of(kid)[i],
            ),
        forall|vid: usize, i: int|
            m.value_index.contains_key(vid) && 0 <= i < m.keys_of(vid).len() ==> m.key_index.contains_key(
                #[trigger] m.keys_of(vid)[i],
            ),
{
    assert forall|kid: usize, vid: usize|
        #[trigger] m.key_index.contains_key(kid) && #[trigger] m.value_index.contains_key(vid) implies (
        m.values_of(kid).contains(vid) <==> m.keys_of(vid).contains(kid)) by {
        let l = m.key_index[kid].1;
        let v = m.value_index[vid].1;
        let vs = m.value_index[vid].0;
        let ks = m.key_index[kid].0;
        if m.values_of(kid).contains(vid) {
            let k = choose|k: int| 0 <= k < m.values_of(kid).len() && m.values_of(kid)[k] == vid;
            assert(m.values.contains_key(l[k]));
            assert(l[k] == vs);
            assert(l.contains(vs));
        }
        if l.contains(vs) {
            let k = choose|k: int| 0 <= k < l.len() && l[k] == vs;
            assert(m.values_of(kid)[k] == vid);
        }
        if m.keys_of(vid).contains(kid) {
            let k = choose|k: int| 0 <= k < m.keys_of(vid).len() && m.keys_of(vid)[k] == kid;
            assert(m.keys.contains_key(v[k]));
            assert(v[k] == ks);
            assert(v.contains(ks));
        }
        if v.contains(ks) {
            let k = choose|k: int| 0 <= k < v.len() && v[k] == ks;
            assert(m.keys_of(vid)[k] == kid);
        }
    }
    assert forall|kid: usize| #[trigger] m.key_index.contains_key(kid) implies m.values_of(kid).no_duplicates() by {
        let l = m.key_index[kid].1;
        assert forall|i: int, j: int|
            0 <= i < l.len() && 0 <= j < l.len() && i != j implies m.values_of(kid)[i] != m.values_of(kid)[j] by {
            assert(m.values.contains_key(l[i]));
            assert(m.values.contains_key(l[j]));
        }
    }
    assert forall|vid: usize| #[trigger] m.value_index.contains_key(vid) implies m.keys_of(vid).no_duplicates() by {
        let v = m.value_index[vid].1;
        assert forall|i: int, j: int|
            0 <= i < v.len() && 0 <= j < v.len() && i != j implies m.keys_of(vid)[i] != m.keys_of(vid)[j] by {
            assert(m.keys.contains_key(v[i]));
            assert(m.keys.contains_key(v[j]));
        }
    }
    assert forall|kid: usize, i: int|
        m.key_index.contains_key(kid) && 0 <= i < m.values_of(kid).len() implies m.value_index.contains_key(
        #[trigger] m.values_of(kid)[i],
    ) by {
        assert(m.values.contains_key(m.key_index[kid].1[i]));
    }
    assert forall|vid: usize, i: int|
        m.value_index.contains_key(vid) && 0 <= i < m.keys_of(vid).len() implies m.key_index.contains_key(
        #[trigger] m.keys_of(vid)[i],
    ) by {
        assert(m.keys.contains_key(m.value_index[vid].1[i]));
    }
}

/// In a map that files its items under themselves, a key lists the slot of
/// a value id exactly when its values hold that id, and likewise for the
/// keys of a value.
proof fn lemma_listed_slot(m: MapView, kid: usize, vid: usize)
    requires
        m.wf(),
        files_items_as_ids(m),
        m.key_index.contains_key(kid),
        m.value_index.contains_key(vid),
    ensures
        m.key_index[kid].1.contains(m.value_index[vid].0) <==> m.values_of(kid).contains(vid),
        m.value_index[vid].1.contains(m.key_index[kid].0) <==> m.keys_of(vid).contains(kid),
{
    let l = m.key_index[kid].1;
    let v = m.value_index[vid].1;
    let vs = m.value_index[vid].0;
    let ks = m.key_index[kid].0;
    if m.values_of(kid).contains(vid) {
        let k = choose|k: int| 0 <= k < m.values_of(kid).len() && m.values_of(kid)[k] == vid;
        assert(m.values.contains_key(l[k]));
        assert(l[k] == vs);
    }
    if l.contains(vs) {
        let k = choose|k: int| 0 <= k < l.len() && l[k] == vs;
        assert(m.values_of(kid)[k] == vid);
    }
    if m.keys_of(vid).contains(kid) {
        let k = choose|k: int| 0 <= k < m.keys_of(vid).len() && m.keys_of(vid)[k] == kid;
        assert(m.keys.contains_key(v[k]));
        assert(v[k] == ks);
    }
    if v.contains(ks) {
        let k = choose|k: int| 0 <= k < v.len() && v[k] == ks;
        assert(m.keys_of(vid)[k] == kid);
    }
}

/// A call that changes a `BirelationalMap`.
pub enum MapCall {
    Insert(usize, usize),
    Remove(usize, usize),
}

/// `n` is what `call` leaves of `m`, with the slots that insert chose.
pub open spec fn call_step(m: MapView, call: MapCall, n: MapView) -> bool {
    match call {
        MapCall::Insert(k, v) => {
            &&& m.has_room_for(k, v)
            &&& m.insert_slots_ok(k, v, n.key_index[k].0, n.value_index[v].0)
            &&& n == m.inserted(k, v, n.key_index[k].0, n.value_index[v].0)
        },
        MapCall::Remove(k, v) => n == m.removed(k, v),
    }
}

/// A map that holds nothing, as `new` gives.
pub open spec fn is_empty_map(m: MapView) -> bool {
    &&& m.keys.dom() == Set::<u64>::empty()
    &&& m.values.dom() == Set::<u64>::empty()
    &&& m.key_index.dom() == Set::<usize>::empty()
    &&& m.value_index.dom() == Set::<usize>::empty()
}

/// `maps` are the maps that `calls` pass through, from a new map on.
pub open spec fn is_run(maps: Seq<MapView>, calls: Seq<MapCall>) -> bool {
    &&& maps.len() == calls.len() + 1
    &&& is_empty_map(maps[0])
    &&& forall|i: int| 0 <= i < calls.len() ==> call_step(maps[i], #[trigger] calls[i], maps[i + 1])
}

/// The key ids that some call inserted.
pub open spec fn inserted_key_ids(calls: Seq<MapCall>) -> Set<usize>
    decreases calls.len(),
{
    if calls.len() == 0 {
        Set::empty()
    } else {
        let before = inserted_key_ids(calls.drop_last());
        match calls.last() {
            MapCall::Insert(k, _) => before.insert(k),
            MapCall::Remove(_, _) => before,
        }
    }
}

/// The value ids that some call inserted.
pub open spec fn inserted_value_ids(calls: Seq<MapCall>) -> Set<usize>
    decreases calls.len(),
{
    if calls.len() == 0 {
        Set::empty()
    } else {
        let before = inserted_value_ids(calls.drop_last());
        match calls.last() {
            MapCall::Insert(_, v) => before.insert(v),
            MapCall::Remove(_, _) => before,
        }
    }
}

/// The values of `kid` as `calls` made them: an insert for `kid` appends its
/// value unless it is there, a remove for `kid` drops its value.
pub open spec fn values_after(calls: Seq<MapCall>, kid: usize) -> Seq<usize>
    decreases calls.len(),
{
    if calls.len() == 0 {
        Seq::empty()
    } else {
        let before = values_after(calls.drop_last(), kid);
        match calls.last() {
            MapCall::Insert(k, v) => if k == kid { push_absent(before, v) } else { before },
            MapCall::Remove(k, v) => if k == kid { before.filter(item_differs(v)) } else { before },
        }
    }
}

/// The keys of `vid` as `calls` made them: an insert for `vid` appends its
/// key unless it is there, a remove for `vid` drops its key.
pub open spec fn keys_after(calls: Seq<MapCall>, vid: usize) -> Seq<usize>
    decreases calls.len(),
{
    if calls.len() == 0 {
        Seq::empty()
    } else {
        let before = keys_after(calls.drop_last(), vid);
        match calls.last() {
            MapCall::Insert(k, v) => if v == vid { push_absent(before, k) } else { before },
            MapCall::Remove(k, v) => if v == vid { before.filter(item_differs(k)) } else { before },
        }
    }
}

/// The ids never inserted have empty lists.
proof fn lemma_never_inserted(calls: Seq<MapCall>, kid: usize, vid: usize)
    ensures
        !inserted_key_ids(calls).contains(kid) ==> values_after(calls, kid) == Seq::<usize>::empty(),
        !inserted_value_ids(calls).contains(vid) ==> keys_after(calls, vid) == Seq::<usize>::empty(),
    decreases calls.len(),
{
    if calls.len() > 0 {
        lemma_never_inserted(calls.drop_last(), kid, vid);
        reveal(Seq::filter);
    }
}

/// The history of a map: after any sequence of inserts and removes from a
/// new map, the key ids with a list are exactly those some insert named,
/// and so are the value ids; each key id lists, in the order the relations
/// were made, each value id once that an insert related to it and no later
/// remove undid, and each value id likewise lists its key ids; the relation
/// is the same read from either side.
pub proof fn law_map_history(maps: Seq<MapView>, calls: Seq<MapCall>)
    requires
        is_run(maps, calls),
    ensures
        ({
            let m = maps.last();
            &&& m.wf()
            &&& files_items_as_ids(m)
            &&& relation_symmetric(m)
            &&& m.key_index.dom() == inserted_key_ids(calls)
            &&& m.value_index.dom() == inserted_value_ids(calls)
            &&& forall|kid: usize| #[trigger] m.key_index.contains_key(kid) ==> m.values_of(kid) == values_after(calls, kid)
            &&& forall|vid: usize| #[trigger] m.value_index.contains_key(vid) ==> m.keys_of(vid) == keys_after(calls, vid)
            &&& forall|kid: usize| #[trigger] m.key_index.contains_key(kid) ==> m.values_of(kid).no_duplicates()
            &&& forall|vid: usize| #[trigger] m.value_index.contains_key(vid) ==> m.keys_of(vid).no_duplicates()
        }),
    decreases calls.len(),
{
    let m = maps.last();
    law_map_history_lists(maps, calls);
    law_symmetric_items(m);
}

/// The lists part of `law_map_history`.
proof fn law_map_history_lists(maps: Seq<MapView>, calls: Seq<MapCall>)
    requires
        is_run(maps, calls),
    ensures
        ({
            let m = maps.last();
            &&& m.wf()
            &&& files_items_as_ids(m)
            &&& relation_symmetric(m)
            &&& m.key_index.dom() == inserted_key_ids(calls)
            &&& m.value_index.dom() == inserted_value_ids(calls)
            &&& forall|kid: usize| #[trigger] m.key_index.contains_key(kid) ==> m.values_of(kid) == values_after(calls, kid)
            &&& forall|vid: usize| #[trigger] m.value_index.contains_key(vid) ==> m.keys_of(vid) == keys_after(calls, vid)
        }),
    decreases calls.len(),
{
    let m = maps.last();
    if calls.len() == 0 {
        let m0 = maps[0];
        assert(m0.keys.dom().finite());
        assert(m0.values.dom().finite());
        law_empty_is_symmetric(m0);
        assert forall|kid: usize| !m0.key_index.contains_key(kid) by {
            assert(!m0.key_index.dom().contains(kid));
        }
        assert forall|vid: usize| !m0.value_index.contains_key(vid) by {
            assert(!m0.value_index.dom().contains(vid));
        }
        assert(m0.wf());
        assert(m0.key_index.dom() =~= inserted_key_ids(calls));
        assert(m0.value_index.dom() =~= inserted_value_ids(calls));
    } else {
        let pm = maps.drop_last();
        let pc = calls.drop_last();
        assert forall|i: int| 0 <= i < pc.len() implies call_step(pm[i], #[trigger] pc[i], pm[i + 1]) by {
            assert(call_step(maps[i], calls[i], maps[i + 1]));
        }
        law_map_history_lists(pm, pc);
        let p = pm.last();
        assert(p == maps[calls.len() - 1]);
        let c = calls.last();
        assert(call_step(maps[calls.len() - 1], calls[calls.len() - 1], maps[calls.len() as int]));
        law_symmetric_items(p);
        match c {
            MapCall::Insert(k, v) => {
                let kh = m.key_index[k].0;
                let vh = m.value_index[v].0;
                law_insert_keeps_symmetry(p, k, v, kh, vh);
                law_insert_relates(p, k, v, kh, vh);
                law_insert_appends(p, k, v, kh, vh);
                assert(m.key_index.dom() =~= inserted_key_ids(calls));
                assert(m.value_index.dom() =~= inserted_value_ids(calls));
                assert(m.values[vh] == v);
                assert(m.keys[kh] == k);
                lemma_never_inserted(pc, k, v);
                if p.key_index.contains_key(k) {
                    if p.value_index.contains_key(v) {
                        lemma_listed_slot(p, k, v);
                    } else {
                        assert(!p.values_of(k).contains(v)) by {
                            if p.values_of(k).contains(v) {
                                let j = choose|j: int| 0 <= j < p.values_of(k).len() && p.values_of(k)[j] == v;
                            }
                        }
                    }
                }
                if p.value_index.contains_key(v) {
                    if p.key_index.contains_key(k) {
                        lemma_listed_slot(p, k, v);
                    } else {
                        assert(!p.keys_of(v).contains(k)) by {
                            if p.keys_of(v).contains(k) {
                                let j = choose|j: int| 0 <= j < p.keys_of(v).len() && p.keys_of(v)[j] == k;
                            }
                        }
                    }
                }
                assert(values_after(calls, k) == push_absent(values_after(pc, k), v));
                assert(keys_after(calls, v) == push_absent(keys_after(pc, v), k));
                assert forall|kid: usize| #[trigger] m.key_index.contains_key(kid) implies m.values_of(kid) == values_after(
                    calls,
                    kid,
                ) by {
                    if kid == k {
                        if !p.key_index.contains_key(k) {
                            assert(seq![v] =~= Seq::<usize>::empty().push(v));
                        }
                    }
                }
                assert forall|vid: usize| #[trigger] m.value_index.contains_key(vid) implies m.keys_of(vid) == keys_after(
                    calls,
                    vid,
                ) by {
                    if vid == v {
                        if !p.value_index.contains_key(v) {
                            assert(seq![k] =~= Seq::<usize>::empty().push(k));
                        }
                    }
                }
            },
            MapCall::Remove(k, v) => {
                law_remove_keeps_symmetry(p, k, v);
                law_remove_unrelates(p, k, v);
                assert(m.key_index.dom() =~= inserted_key_ids(calls));
                assert(m.value_index.dom() =~= inserted_value_ids(calls));
                assert forall|kid: usize| #[trigger] m.key_index.contains_key(kid) implies m.values_of(kid) == values_after(
                    calls,
                    kid,
                ) by {
                    if kid != k {
                        assert(m.key_index[kid] == p.key_index[kid]);
                    }
                }
                assert forall|vid: usize| #[trigger] m.value_index.contains_key(vid) implies m.keys_of(vid) == keys_after(
                    calls,
                    vid,
                ) by {
                    if vid != v {
                        assert(m.value_index[vid] == p.value_index[vid]);
                    }
                }
            },
        }
    }
}

} // verus!
