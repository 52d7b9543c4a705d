use vstd::prelude::*;
use crate::birelational_map::any_value::{AnyValue, ValueKind, kind_of, same_value};
use crate::birelational_map::slots::{is_slot_order, slot_index};
use crate::birelational_map::map_laws::item_differs;
use crate::birelational_map::links::{
    lemma_filter_agree,
    lemma_filter_within,
    lemma_filter_keeps_all,
    lemma_filter_map,
    lemma_filter_commute,
    lemma_read_after_write,
    lemma_filter_facts,
};
use crate::birelational_map::anyvec_map::{
    AnyMapView,
    id_of,
    value_slots_of,
    relations_of,
    slot_has_kind,
    slot_differs,
    relation_has_value,
    relation_differs,
};

verus! {

/// Every value is the same as itself.
pub proof fn law_same_value_reflexive(v: AnyValue)
    ensures
        same_value(v, v),
{
}



/// Insert appends: the key's values of the inserted value's kind are those
/// it had (none for a new key id) followed by `value`, and its values of any
/// other kind stay; the keys related to a value the same as `value` under
/// `value_id` are those there were followed by the key that was inserted; and
/// each insertion stores one more value, even when the same pair was
/// inserted before.
pub proof fn law_any_insert_appends(m: AnyMapView, key: usize, value_id: usize, value: AnyValue, kh: u64, vh: u64)
    requires
        m.wf(),
        m.insert_slots_ok(key, kh, vh),
    ensures
        ({
            let n = m.inserted(key, value_id, value, kh, vh);
            &&& n.values_of_kind(key, kind_of(value)) == (if m.key_index.contains_key(key) {
                m.values_of_kind(key, kind_of(value))
            } else {
                Seq::<AnyValue>::empty()
            }).push(value)
            &&& forall|kind: ValueKind|
                kind != kind_of(value) ==> #[trigger] n.values_of_kind(key, kind) == (if m.key_index.contains_key(
                    key,
                ) {
                    m.values_of_kind(key, kind)
                } else {
                    Seq::<AnyValue>::empty()
                })
            &&& n.keys_with_value(value_id, value) == (if m.value_index.contains_key(value_id) {
                m.keys_with_value(value_id, value)
            } else {
                Seq::<usize>::empty()
            }).push(n.keys[kh])
            &&& n.keys[kh] == (if m.key_index.contains_key(key) { m.keys[kh] } else { key })
            &&& n.values.dom() == m.values.dom().insert(vh)
            &&& !m.values.dom().contains(vh)
        }),
{
    let n = m.inserted(key, value_id, value, kh, vh);
    let l = value_slots_of(m.key_index, key);
    assert forall|i: int| 0 <= i < l.len() implies m.values.contains_key(#[trigger] l[i]) by {
        assert(m.key_index.contains_key(key));
    }
    assert forall|kind: ValueKind| #[trigger] n.values_of_kind(key, kind) == (if kind == kind_of(value) {
        (if m.key_index.contains_key(key) {
            m.values_of_kind(key, kind)
        } else {
            Seq::<AnyValue>::empty()
        }).push(value)
    } else {
        (if m.key_index.contains_key(key) {
            m.values_of_kind(key, kind)
        } else {
            Seq::<AnyValue>::empty()
        })
    }) by {
        let pm = slot_has_kind(m.values, kind);
        let pn = slot_has_kind(n.values, kind);
        assert forall|i: int| 0 <= i < l.len() implies pm(#[trigger] l[i]) == pn(l[i]) by {
            assert(m.values.contains_key(l[i]));
        }
        lemma_filter_agree(l, pm, pn);
        l.lemma_filter_push(vh, pn);
        let kept = l.filter(pm);
        assert forall|i: int| 0 <= i < kept.len() implies n.values[#[trigger] kept[i]] == m.values[kept[i]] by {
            lemma_filter_within(l, pm, i);
            let k = choose|k: int| 0 <= k < l.len() && l[k] == kept[i];
            assert(m.values.contains_key(l[k]));
        }
        let read_n = |h: u64| n.values[h];
        let read_m = |h: u64| m.values[h];
        assert(kept.map_values(read_n) =~= kept.map_values(read_m));
        assert(n.key_index[key].1 == l.push(vh));
        if kind == kind_of(value) {
            assert(kept.push(vh).map_values(read_n) =~= kept.map_values(read_m).push(value));
        }
        if m.key_index.contains_key(key) {
            assert(m.values_of_kind(key, kind) == kept.map_values(read_m));
        } else {
            reveal(Seq::filter);
            assert(l =~= Seq::<u64>::empty());
            assert(kept =~= Seq::<u64>::empty());
        }
        if kind == kind_of(value) {
            assert(n.values_of_kind(key, kind) =~= kept.push(vh).map_values(read_n));
        } else {
            assert(n.values_of_kind(key, kind) =~= kept.map_values(read_n));
        }
    }
    let vid = value_id;
    let r = relations_of(m.value_index, vid);
    assert forall|i: int| 0 <= i < r.len() implies m.values.contains_key(#[trigger] r[i].1) && m.keys.contains_key(
        r[i].0,
    ) by {
        assert(m.value_index.contains_key(vid));
        assert(m.keys.contains_key(m.value_index[vid].1[i].0));
    }
    let pm = relation_has_value(m.values, value);
    let pn = relation_has_value(n.values, value);
    assert forall|i: int| 0 <= i < r.len() implies pm(#[trigger] r[i]) == pn(r[i]) by {
        assert(m.values.contains_key(r[i].1));
    }
    lemma_filter_agree(r, pm, pn);
    r.lemma_filter_push((kh, vh), pn);
    assert(pn((kh, vh)));
    let kept = r.filter(pm);
    assert forall|i: int| 0 <= i < kept.len() implies n.keys[(#[trigger] kept[i]).0] == m.keys[kept[i].0] by {
        lemma_filter_within(r, pm, i);
        let k = choose|k: int| 0 <= k < r.len() && r[k] == kept[i];
        assert(m.keys.contains_key(r[k].0));
    }
    let key_n = |x: (u64, u64)| n.keys[x.0];
    let key_m = |x: (u64, u64)| m.keys[x.0];
    assert(kept.map_values(key_n) =~= kept.map_values(key_m));
    assert(kept.push((kh, vh)).map_values(key_n) =~= kept.map_values(key_n).push(n.keys[kh]));
    if m.value_index.contains_key(vid) {
        assert(m.keys_with_value(vid, value) == kept.map_values(key_m));
    } else {
        reveal(Seq::filter);
        assert(r =~= Seq::<(u64, u64)>::empty());
        assert(kept =~= Seq::<(u64, u64)>::empty());
    }
    assert(n.value_index[vid].1 == r.push((kh, vh)));
    assert(n.keys_with_value(vid, value) =~= kept.push((kh, vh)).map_values(key_n));
    assert(n.values_of_kind(key, kind_of(value)) == (if m.key_index.contains_key(key) {
        m.values_of_kind(key, kind_of(value))
    } else {
        Seq::<AnyValue>::empty()
    }).push(value));
    assert(n.values.dom() =~= m.values.dom().insert(vh));
}

/// Keeps the values that are not the same as `v`.
pub open spec fn value_differs(v: AnyValue) -> spec_fn(AnyValue) -> bool {
    |x: AnyValue| !same_value(x, v)
}

/// Being the same value is symmetric and transitive.
pub proof fn law_same_value_equivalence(a: AnyValue, b: AnyValue, c: AnyValue)
    ensures
        same_value(a, b) ==> same_value(b, a),
        same_value(a, b) && same_value(b, c) ==> same_value(a, c),
{
}

/// What an insertion leaves of the rest of the map: it adds only the ids
/// `key` and `value_id`; the values of every other key and the keys found
/// for every other value id stay, and so do the keys found under `value_id`
/// for a value not the same as `value`. For a key id already known, the key
/// passed is not stored: the stored keys and the key's slot stay.
pub proof fn law_any_insert_frame(m: AnyMapView, key: usize, value_id: usize, value: AnyValue, kh: u64, vh: u64)
    requires
        m.wf(),
        m.insert_slots_ok(key, kh, vh),
    ensures
        ({
            let n = m.inserted(key, value_id, value, kh, vh);
            &&& n.wf()
            &&& n.key_index.dom() == m.key_index.dom().insert(key)
            &&& n.value_index.dom() == m.value_index.dom().insert(value_id)
            &&& n.values == m.values.insert(vh, value)
            &&& m.key_index.contains_key(key) ==> n.keys == m.keys && n.key_index[key].0 == m.key_index[key].0
            &&& forall|kid: usize, kind: ValueKind|
                kid != key && m.key_index.contains_key(kid) ==> #[trigger] n.values_of_kind(kid, kind)
                    == m.values_of_kind(kid, kind)
            &&& forall|vid: usize, w: AnyValue|
                vid != value_id && m.value_index.contains_key(vid) ==> #[trigger] n.keys_with_value(vid, w)
                    == m.keys_with_value(vid, w)
            &&& forall|w: AnyValue|
                !same_value(value, w) && m.value_index.contains_key(value_id) ==> #[trigger] n.keys_with_value(
                    value_id,
                    w,
                ) == m.keys_with_value(value_id, w)
        }),
{
    let n = m.inserted(key, value_id, value, kh, vh);
    m.lemma_inserted_wf(key, value_id, value, kh, vh);
    assert(n.key_index.dom() =~= m.key_index.dom().insert(key));
    assert(n.value_index.dom() =~= m.value_index.dom().insert(value_id));
    assert forall|kid: usize, kind: ValueKind|
        kid != key && m.key_index.contains_key(kid) implies #[trigger] n.values_of_kind(kid, kind)
        == m.values_of_kind(kid, kind) by {
        let l = m.key_index[kid].1;
        let pm = slot_has_kind(m.values, kind);
        let pn = slot_has_kind(n.values, kind);
        assert forall|i: int| 0 <= i < l.len() implies pm(#[trigger] l[i]) == pn(l[i]) by {
            assert(m.values.contains_key(l[i]));
        }
        lemma_filter_agree(l, pm, pn);
        let kept = l.filter(pm);
        assert forall|i: int| 0 <= i < kept.len() implies n.values[#[trigger] kept[i]] == m.values[kept[i]] by {
            lemma_filter_within(l, pm, i);
            let k = choose|k: int| 0 <= k < l.len() && l[k] == kept[i];
            assert(m.values.contains_key(l[k]));
        }
        assert(n.values_of_kind(kid, kind) =~= m.values_of_kind(kid, kind));
    }
    assert forall|vid: usize, w: AnyValue|
        m.value_index.contains_key(vid) && (vid != value_id || !same_value(value, w)) implies #[trigger] n.keys_with_value(
        vid,
        w,
    ) == m.keys_with_value(vid, w) by {
        let r = m.value_index[vid].1;
        assert forall|i: int| 0 <= i < r.len() implies m.values.contains_key(#[trigger] r[i].1) && m.keys.contains_key(
            r[i].0,
        ) by {
            assert(m.keys.contains_key(m.value_index[vid].1[i].0));
        }
        let pm = relation_has_value(m.values, w);
        let pn = relation_has_value(n.values, w);
        assert forall|i: int| 0 <= i < r.len() implies pm(#[trigger] r[i]) == pn(r[i]) by {
            assert(m.values.contains_key(r[i].1));
        }
        lemma_filter_agree(r, pm, pn);
        let kept = r.filter(pm);
        assert forall|i: int| 0 <= i < kept.len() implies n.keys[(#[trigger] kept[i]).0] == m.keys[kept[i].0] by {
            lemma_filter_within(r, pm, i);
            let k = choose|k: int| 0 <= k < r.len() && r[k] == kept[i];
            assert(m.keys.contains_key(r[k].0));
        }
        let key_n = |x: (u64, u64)| n.keys[x.0];
        let key_m = |x: (u64, u64)| m.keys[x.0];
        assert(kept.map_values(key_n) =~= kept.map_values(key_m));
        if vid == value_id {
            r.lemma_filter_push((kh, vh), pn);
            assert(!pn((kh, vh)));
            assert(n.value_index[vid].1 == r.push((kh, vh)));
        }
        assert(n.keys_with_value(vid, w) =~= kept.map_values(key_n));
    }
}

/// What a removal gives back: the key's values of every kind are those it
/// had without the ones the same as `value`, in order; the keys found for
/// `value` are those there were without the ones equal to `key`, in order.
/// It leaves every id, every stored item, the values of every other key, the
/// keys found under every other value id, and those found under the id of
/// `value` for a value not the same as `value`.
pub proof fn law_any_remove_reads(m: AnyMapView, key: usize, value: AnyValue)
    requires
        m.wf(),
    ensures
        ({
            let r = m.removed(key, value);
            &&& r.key_index.dom() == m.key_index.dom()
            &&& r.value_index.dom() == m.value_index.dom()
            &&& r.keys == m.keys
            &&& r.values == m.values
            &&& forall|kind: ValueKind|
                m.key_index.contains_key(key) ==> #[trigger] r.values_of_kind(key, kind) == m.values_of_kind(
                    key,
                    kind,
                ).filter(value_differs(value))
            &&& m.value_index.contains_key(id_of(value)) ==> r.keys_with_value(id_of(value), value)
                == m.keys_with_value(id_of(value), value).filter(item_differs(key))
            &&& forall|kid: usize, kind: ValueKind|
                kid != key && m.key_index.contains_key(kid) ==> #[trigger] r.values_of_kind(kid, kind)
                    == m.values_of_kind(kid, kind)
            &&& forall|vid: usize, w: AnyValue|
                m.value_index.contains_key(vid) && (vid != id_of(value) || !same_value(value, w))
                    ==> #[trigger] r.keys_with_value(vid, w) == m.keys_with_value(vid, w)
        }),
{
    let r = m.removed(key, value);
    assert(r.key_index.dom() =~= m.key_index.dom());
    assert(r.value_index.dom() =~= m.value_index.dom());
    let read = |h: u64| m.values[h];
    if m.key_index.contains_key(key) {
        let l = m.key_index[key].1;
        let sd = slot_differs(m.values, value);
        assert forall|kind: ValueKind| #[trigger] r.values_of_kind(key, kind) == m.values_of_kind(key, kind).filter(
            value_differs(value),
        ) by {
            let kp = slot_has_kind(m.values, kind);
            lemma_filter_commute(l, sd, kp);
            let lk = l.filter(kp);
            lemma_filter_map(lk, sd, read, value_differs(value));
            assert(r.values_of_kind(key, kind) =~= lk.filter(sd).map_values(read));
            assert(m.values_of_kind(key, kind) =~= lk.map_values(read));
        }
    }
    let vid = id_of(value);
    if m.value_index.contains_key(vid) {
        let rs = m.value_index[vid].1;
        let rd = relation_differs(m.keys, m.values, key, value);
        let rh = relation_has_value(m.values, value);
        let key_of = |x: (u64, u64)| m.keys[x.0];
        lemma_filter_commute(rs, rd, rh);
        let matching = rs.filter(rh);
        assert forall|i: int| 0 <= i < matching.len() implies rd(#[trigger] matching[i]) == item_differs(key)(
            key_of(matching[i]),
        ) by {
            rs.lemma_filter_pred(rh, i);
        }
        lemma_filter_map(matching, rd, key_of, item_differs(key));
        assert(r.keys_with_value(vid, value) =~= matching.filter(rd).map_values(key_of));
        assert(m.keys_with_value(vid, value) =~= matching.map_values(key_of));
        assert forall|w: AnyValue| !same_value(value, w) implies #[trigger] r.keys_with_value(vid, w)
            == m.keys_with_value(vid, w) by {
            let hw = relation_has_value(m.values, w);
            lemma_filter_commute(rs, rd, hw);
            let mw = rs.filter(hw);
            assert forall|i: int| 0 <= i < mw.len() implies rd(#[trigger] mw[i]) by {
                rs.lemma_filter_pred(hw, i);
                law_same_value_equivalence(m.values[mw[i].1], w, value);
                law_same_value_equivalence(value, m.values[mw[i].1], w);
                law_same_value_equivalence(w, value, value);
            }
            lemma_filter_keeps_all(mw, rd);
            assert(r.keys_with_value(vid, w) =~= mw.filter(rd).map_values(key_of));
        }
    }
    assert forall|kid: usize, kind: ValueKind|
        kid != key && m.key_index.contains_key(kid) implies #[trigger] r.values_of_kind(kid, kind)
        == m.values_of_kind(kid, kind) by {
        assert(r.key_index[kid] == m.key_index[kid]);
    }
    assert forall|vid2: usize, w: AnyValue|
        m.value_index.contains_key(vid2) && vid2 != id_of(value) implies #[trigger] r.keys_with_value(vid2, w)
        == m.keys_with_value(vid2, w) by {
        assert(r.value_index[vid2] == m.value_index[vid2]);
    }
}

/// Remove undoes the relations of a pair: afterwards the key lists no value
/// the same as `value`, of any kind, and no key equal to `key` is listed
/// among the keys related to a value the same as `value`. Stored keys and
/// values stay, and the key's other values keep their order.
pub proof fn law_any_remove_unrelates(m: AnyMapView, key: usize, value: AnyValue)
    requires
        m.wf(),
    ensures
        ({
            let r = m.removed(key, value);
            &&& r.wf()
            &&& r.keys == m.keys
            &&& r.values == m.values
            &&& m.key_index.contains_key(key) ==> r.key_index[key].1 == m.key_index[key].1.filter(
                slot_differs(m.values, value),
            )
            &&& forall|kind: ValueKind, i: int|
                m.key_index.contains_key(key) && 0 <= i < r.values_of_kind(key, kind).len() ==> !same_value(
                    #[trigger] r.values_of_kind(key, kind)[i],
                    value,
                )
            &&& forall|i: int|
                m.value_index.contains_key(id_of(value)) && 0 <= i < r.keys_with_value(id_of(value), value).len()
                    ==> #[trigger] r.keys_with_value(id_of(value), value)[i] != key
        }),
{
    let r = m.removed(key, value);
    m.lemma_removed_wf(key, value);
    if m.key_index.contains_key(key) {
        let s = m.key_index[key].1;
        let kept = s.filter(slot_differs(m.values, value));
        assert forall|kind: ValueKind, i: int|
            0 <= i < r.values_of_kind(key, kind).len() implies !same_value(
            #[trigger] r.values_of_kind(key, kind)[i],
            value,
        ) by {
            let p = slot_has_kind(r.values, kind);
            let h = kept.filter(p)[i];
            lemma_filter_within(kept, p, i);
            let k = choose|k: int| 0 <= k < kept.len() && kept[k] == h;
            s.lemma_filter_pred(slot_differs(m.values, value), k);
        }
    }
    let vid = id_of(value);
    if m.value_index.contains_key(vid) {
        let s = m.value_index[vid].1;
        let kept = s.filter(relation_differs(m.keys, m.values, key, value));
        assert forall|i: int| 0 <= i < r.keys_with_value(vid, value).len() implies #[trigger] r.keys_with_value(
            vid,
            value,
        )[i] != key by {
            let p = relation_has_value(r.values, value);
            let x = kept.filter(p)[i];
            lemma_filter_within(kept, p, i);
            kept.lemma_filter_pred(p, i);
            let k = choose|k: int| 0 <= k < kept.len() && kept[k] == x;
            s.lemma_filter_pred(relation_differs(m.keys, m.values, key, value), k);
        }
    }
}

/// A write through `AnyValuesMut` is read back: replacing the value at the
/// `i`-th slot of a key's values of kind `kind` with a value of that kind
/// changes exactly position `i` of the key's values of that kind, and leaves
/// its values of other kinds and the values of every other key.
pub proof fn law_any_write_then_read(m: AnyMapView, key: usize, kind: ValueKind, i: int, x: AnyValue)
    requires
        m.wf(),
        m.key_index.contains_key(key),
        0 <= i < m.key_index[key].1.filter(slot_has_kind(m.values, kind)).len(),
        kind_of(x) == kind,
    ensures
        ({
            let w = m.with_value(m.key_index[key].1.filter(slot_has_kind(m.values, kind))[i], x);
            &&& w.wf()
            &&& w.values_of_kind(key, kind) == m.values_of_kind(key, kind).update(i, x)
            &&& forall|k2: ValueKind| k2 != kind ==> #[trigger] w.values_of_kind(key, k2) == m.values_of_kind(key, k2)
            &&& forall|kid: usize, k2: ValueKind|
                kid != key && m.key_index.contains_key(kid) ==> #[trigger] w.values_of_kind(kid, k2)
                    == m.values_of_kind(kid, k2)
        }),
{
    let s = m.key_index[key].1;
    let p = slot_has_kind(m.values, kind);
    let sp = s.filter(p);
    let h = sp[i];
    lemma_filter_within(s, p, i);
    s.lemma_filter_pred(p, i);
    let k = choose|k: int| 0 <= k < s.len() && s[k] == h;
    assert(m.values.contains_key(s[k]));
    let w = m.with_value(h, x);
    m.lemma_with_value_wf(h, x);
    let q = slot_has_kind(w.values, kind);
    assert forall|j: int| 0 <= j < s.len() implies p(#[trigger] s[j]) == q(s[j]) by {}
    lemma_filter_agree(s, p, q);
    lemma_filter_facts(s, p);
    lemma_read_after_write(sp, m.values, i, x);
    assert(w.values_of_kind(key, kind) =~= sp.map_values(|g: u64| m.values.insert(sp[i], x)[g]));
    assert(m.values_of_kind(key, kind) =~= sp.map_values(|g: u64| m.values[g]));
    assert forall|k2: ValueKind| k2 != kind implies #[trigger] w.values_of_kind(key, k2) == m.values_of_kind(key, k2) by {
        let p2 = slot_has_kind(m.values, k2);
        let q2 = slot_has_kind(w.values, k2);
        assert forall|j: int| 0 <= j < s.len() implies p2(#[trigger] s[j]) == q2(s[j]) by {}
        lemma_filter_agree(s, p2, q2);
        let kept = s.filter(p2);
        assert forall|j: int| 0 <= j < kept.len() implies w.values[#[trigger] kept[j]] == m.values[kept[j]] by {
            s.lemma_filter_pred(p2, j);
        }
        assert(w.values_of_kind(key, k2) =~= m.values_of_kind(key, k2));
    }
    assert forall|kid: usize, k2: ValueKind|
        kid != key && m.key_index.contains_key(kid) implies #[trigger] w.values_of_kind(kid, k2)
        == m.values_of_kind(kid, k2) by {
        let l = m.key_index[kid].1;
        assert forall|j: int| 0 <= j < l.len() implies #[trigger] l[j] != h by {
            assert(m.key_index[key].1[k] != m.key_index[kid].1[j]);
        }
        let p2 = slot_has_kind(m.values, k2);
        let q2 = slot_has_kind(w.values, k2);
        assert forall|j: int| 0 <= j < l.len() implies p2(#[trigger] l[j]) == q2(l[j]) by {}
        lemma_filter_agree(l, p2, q2);
        let kept = l.filter(p2);
        assert forall|j: int| 0 <= j < kept.len() implies w.values[#[trigger] kept[j]] == m.values[kept[j]] by {
            lemma_filter_within(l, p2, j);
        }
        assert(w.values_of_kind(kid, k2) =~= m.values_of_kind(kid, k2));
    }
}

/// Listing a set of handles by increasing slot index gives one sequence
/// only: so `keys`, `values_of` and their write accesses fix their order.
pub proof fn law_slot_order_unique(dom: Set<u64>, a: Seq<u64>, b: Seq<u64>)
    requires
        is_slot_order(dom, a),
        is_slot_order(dom, b),
    ensures
        a == b,
    decreases a.len(),
{
    if a.len() == 0 {
        if b.len() > 0 {
            assert(dom.contains(b[0]));
            assert(a.contains(b[0]));
        }
        assert(a =~= b);
    } else {
        assert(dom.contains(a[0]));
        assert(b.contains(a[0]));
        let kb = choose|k: int| 0 <= k < b.len() && b[k] == a[0];
        assert(dom.contains(b[0]));
        assert(a.contains(b[0]));
        let ka = choose|k: int| 0 <= k < a.len() && a[k] == b[0];
        if a[0] != b[0] {
            assert(ka > 0);
            assert(kb > 0);
            assert(slot_index(a[0]) < slot_index(a[ka]));
            assert(slot_index(b[0]) < slot_index(b[kb]));
        }
        let x = a[0];
        let dom2 = dom.remove(x);
        let a2 = a.drop_first();
        let b2 = b.drop_first();
        assert forall|h: u64| #[trigger] dom2.contains(h) implies a2.contains(h) by {
            let k = choose|k: int| 0 <= k < a.len() && a[k] == h;
            assert(k != 0);
            assert(a2[k - 1] == h);
        }
        assert forall|h: u64| #[trigger] dom2.contains(h) implies b2.contains(h) by {
            let k = choose|k: int| 0 <= k < b.len() && b[k] == h;
            assert(k != 0);
            assert(b2[k - 1] == h);
        }
        assert forall|i: int| 0 <= i < a2.len() implies dom2.contains(#[trigger] a2[i]) by {
            assert(a2[i] == a[i + 1]);
            assert(a[i + 1] != a[0]);
        }
        assert forall|i: int| 0 <= i < b2.len() implies dom2.contains(#[trigger] b2[i]) by {
            assert(b2[i] == b[i + 1]);
            assert(b[i + 1] != b[0]);
        }
        assert forall|i: int, j: int| 0 <= i < j < a2.len() implies slot_index(a2[i]) < slot_index(a2[j]) by {
            assert(a2[i] == a[i + 1] && a2[j] == a[j + 1]);
        }
        assert forall|i: int, j: int| 0 <= i < j < b2.len() implies slot_index(b2[i]) < slot_index(b2[j]) by {
            assert(b2[i] == b[i + 1] && b2[j] == b[j + 1]);
        }
        assert(a2.no_duplicates());
        assert(b2.no_duplicates());
        law_slot_order_unique(dom2, a2, b2);
        assert(a =~= seq![x] + a2);
        assert(b =~= seq![x] + b2);
    }
}

/// A call that changes a `BirelationalAnyValueMap`: an insertion of a value
/// under a value id for a key (`insert_boxed`; `insert` gives the value's own
/// id; `insert_boxed_ref` and `insert_ref` the same for a known key), or a
/// removal.
pub enum AnyMapCall {
    Insert(usize, usize, AnyValue),
    Remove(usize, AnyValue),
}

/// `n` is what `call` leaves of `m`, with the slots that the insertion chose.
pub open spec fn any_call_step(m: AnyMapView, call: AnyMapCall, n: AnyMapView) -> bool {
    match call {
        AnyMapCall::Insert(k, vid, v) => {
            &&& m.has_room_for(k)
            &&& m.insert_slots_ok(k, n.key_index[k].0, n.key_index[k].1.last())
            &&& n == m.inserted(k, vid, v, n.key_index[k].0, n.key_index[k].1.last())
        },
        AnyMapCall::Remove(k, v) => n == m.removed(k, v),
    }
}

/// `maps` are the maps that `calls` pass through, from a new map on.
pub open spec fn is_any_run(maps: Seq<AnyMapView>, calls: Seq<AnyMapCall>) -> bool {
    &&& maps.len() == calls.len() + 1
    &&& maps[0].keys.dom() == Set::<u64>::empty()
    &&& maps[0].values.dom() == Set::<u64>::empty()
    &&& maps[0].key_index.dom() == Set::<usize>::empty()
    &&& maps[0].value_index.dom() == Set::<usize>::empty()
    &&& forall|i: int| 0 <= i < calls.len() ==> any_call_step(maps[i], #[trigger] calls[i], maps[i + 1])
}

/// The key ids that some insertion named.
pub open spec fn any_key_ids(calls: Seq<AnyMapCall>) -> Set<usize>
    decreases calls.len(),
{
    if calls.len() == 0 {
        Set::empty()
    } else {
        let before = any_key_ids(calls.drop_last());
        match calls.last() {
            AnyMapCall::Insert(k, _, _) => before.insert(k),
            AnyMapCall::Remove(_, _) => before,
        }
    }
}

/// The value ids that some insertion named.
pub open spec fn any_value_ids(calls: Seq<AnyMapCall>) -> Set<usize>
    decreases calls.len(),
{
    if calls.len() == 0 {
        Set::empty()
    } else {
        let before = any_value_ids(calls.drop_last());
        match calls.last() {
            AnyMapCall::Insert(_, vid, _) => before.insert(vid),
            AnyMapCall::Remove(_, _) => before,
        }
    }
}

/// The values of `kid` as `calls` made them: each insertion for `kid`
/// appends its value, each removal for `kid` drops the values the same as
/// its value.
pub open spec fn any_values_after(calls: Seq<AnyMapCall>, kid: usize) -> Seq<AnyValue>
    decreases calls.len(),
{
    if calls.len() == 0 {
        Seq::empty()
    } else {
        let before = any_values_after(calls.drop_last(), kid);
        match calls.last() {
            AnyMapCall::Insert(k, _, v) => if k == kid { before.push(v) } else { before },
            AnyMapCall::Remove(k, v) => if k == kid { before.filter(value_differs(v)) } else { before },
        }
    }
}

/// Keeps the pairs other than those of `key` with a value the same as `v`.
pub open spec fn pair_differs(key: usize, v: AnyValue) -> spec_fn((usize, AnyValue)) -> bool {
    |p: (usize, AnyValue)| p.0 != key || !same_value(p.1, v)
}

/// Keeps the pairs whose value is the same as `w`.
pub open spec fn pair_has_value(w: AnyValue) -> spec_fn((usize, AnyValue)) -> bool {
    |p: (usize, AnyValue)| same_value(p.1, w)
}

/// The relations filed under `vid` as `calls` made them, each a key and a
/// value: each insertion under `vid` appends its pair, each removal whose
/// value is filed under `vid` drops its key's pairs with a value the same as
/// its value.
pub open spec fn relations_after(calls: Seq<AnyMapCall>, vid: usize) -> Seq<(usize, AnyValue)>
    decreases calls.len(),
{
    if calls.len() == 0 {
        Seq::empty()
    } else {
        let before = relations_after(calls.drop_last(), vid);
        match calls.last() {
            AnyMapCall::Insert(k, i, v) => if i == vid { before.push((k, v)) } else { before },
            AnyMapCall::Remove(k, v) => if id_of(v) == vid { before.filter(pair_differs(k, v)) } else { before },
        }
    }
}

/// Ids never inserted have empty histories.
proof fn lemma_any_never_inserted(calls: Seq<AnyMapCall>, kid: usize, vid: usize)
    ensures
        !any_key_ids(calls).contains(kid) ==> any_values_after(calls, kid) == Seq::<AnyValue>::empty(),
        !any_value_ids(calls).contains(vid) ==> relations_after(calls, vid) == Seq::<(usize, AnyValue)>::empty(),
    decreases calls.len(),
{
    if calls.len() > 0 {
        lemma_any_never_inserted(calls.drop_last(), kid, vid);
        reveal(Seq::filter);
    }
}

/// What the runs keep: the stores read along each list follow the history.
proof fn lemma_any_history_lists(maps: Seq<AnyMapView>, calls: Seq<AnyMapCall>)
    requires
        is_any_run(maps, calls),
    ensures
        ({
            let m = maps.last();
            &&& m.wf()
            &&& forall|kid: usize| #[trigger] m.key_index.contains_key(kid) ==> m.keys[m.key_index[kid].0] == kid
            &&& m.key_index.dom() == any_key_ids(calls)
            &&& m.value_index.dom() == any_value_ids(calls)
            &&& forall|kid: usize|
                #[trigger] m.key_index.contains_key(kid) ==> m.key_index[kid].1.map_values(|h: u64| m.values[h])
                    == any_values_after(calls, kid)
            &&& forall|vid: usize|
                #[trigger] m.value_index.contains_key(vid) ==> m.value_index[vid].1.map_values(
                    |r: (u64, u64)| (m.keys[r.0], m.values[r.1]),
                ) == relations_after(calls, vid)
        }),
    decreases calls.len(),
{
    let m = maps.last();
    if calls.len() == 0 {
        let m0 = maps[0];
        assert forall|kid: usize| !m0.key_index.contains_key(kid) by {
            assert(!m0.key_index.dom().contains(kid));
        }
        assert forall|vid: usize| !m0.value_index.contains_key(vid) by {
            assert(!m0.value_index.dom().contains(vid));
        }
        assert(m0.key_index.dom() =~= any_key_ids(calls));
        assert(m0.value_index.dom() =~= any_value_ids(calls));
        assert(m0.wf());
    } else {
        let pm = maps.drop_last();
        let pc = calls.drop_last();
        assert forall|i: int| 0 <= i < pc.len() implies any_call_step(pm[i], #[trigger] pc[i], pm[i + 1]) by {
            assert(any_call_step(maps[i], calls[i], maps[i + 1]));
        }
        lemma_any_history_lists(pm, pc);
        let p = pm.last();
        assert(p == maps[calls.len() - 1]);
        assert(any_call_step(maps[calls.len() - 1], calls[calls.len() - 1], maps[calls.len() as int]));
        match calls.last() {
            AnyMapCall::Insert(k, vid, v) => {
                let kh = m.key_index[k].0;
                let vh = m.key_index[k].1.last();
                law_any_insert_frame(p, k, vid, v, kh, vh);
                lemma_any_never_inserted(pc, k, vid);
                assert(m.key_index.dom() =~= any_key_ids(calls));
                assert(m.value_index.dom() =~= any_value_ids(calls));
                assert(m.keys[kh] == k);
                assert forall|kid: usize| #[trigger] m.key_index.contains_key(kid) implies m.keys[m.key_index[kid].0] == kid by {
                    if kid != k {
                        assert(p.key_index.contains_key(kid));
                        assert(p.keys.contains_key(p.key_index[kid].0));
                    }
                }
                assert forall|kid: usize| #[trigger] m.key_index.contains_key(kid) implies m.key_index[kid].1.map_values(
                    |h: u64| m.values[h],
                ) == any_values_after(calls, kid) by {
                    let l = value_slots_of(p.key_index, kid);
                    assert forall|i: int| 0 <= i < l.len() implies p.values.contains_key(#[trigger] l[i]) by {
                        assert(p.key_index.contains_key(kid));
                    }
                    if kid == k {
                        assert(m.key_index[kid].1 == l.push(vh));
                        assert(m.key_index[kid].1.map_values(|h: u64| m.values[h]) =~= l.map_values(
                            |h: u64| p.values[h],
                        ).push(v));
                        if !p.key_index.contains_key(kid) {
                            assert(l.map_values(|h: u64| p.values[h]) =~= Seq::<AnyValue>::empty());
                        }
                    } else {
                        assert(p.key_index.contains_key(kid));
                        assert(m.key_index[kid].1.map_values(|h: u64| m.values[h]) =~= p.key_index[kid].1.map_values(
                            |h: u64| p.values[h],
                        ));
                    }
                }
                assert forall|v2: usize| #[trigger] m.value_index.contains_key(v2) implies m.value_index[v2].1.map_values(
                    |r: (u64, u64)| (m.keys[r.0], m.values[r.1]),
                ) == relations_after(calls, v2) by {
                    let rs = relations_of(p.value_index, v2);
                    assert forall|i: int| 0 <= i < rs.len() implies p.keys.contains_key(#[trigger] rs[i].0)
                        && p.values.contains_key(rs[i].1) by {
                        assert(p.value_index.contains_key(v2));
                        assert(p.keys.contains_key(p.value_index[v2].1[i].0));
                    }
                    let pf = |r: (u64, u64)| (p.keys[r.0], p.values[r.1]);
                    let mf = |r: (u64, u64)| (m.keys[r.0], m.values[r.1]);
                    assert(rs.map_values(mf) =~= rs.map_values(pf));
                    if v2 == vid {
                        assert(m.value_index[v2].1 == rs.push((kh, vh)));
                        assert(m.value_index[v2].1.map_values(mf) =~= rs.map_values(mf).push((k, v)));
                        if !p.value_index.contains_key(v2) {
                            assert(rs.map_values(pf) =~= Seq::<(usize, AnyValue)>::empty());
                        }
                    } else {
                        assert(p.value_index.contains_key(v2));
                        assert(m.value_index[v2] == p.value_index[v2]);
                    }
                }
            },
            AnyMapCall::Remove(k, v) => {
                p.lemma_removed_wf(k, v);
                assert(m.key_index.dom() =~= any_key_ids(calls));
                assert(m.value_index.dom() =~= any_value_ids(calls));
                assert forall|kid: usize| #[trigger] m.key_index.contains_key(kid) implies m.keys[m.key_index[kid].0] == kid by {
                    assert(p.key_index.contains_key(kid));
                }
                let read = |h: u64| p.values[h];
                assert forall|kid: usize| #[trigger] m.key_index.contains_key(kid) implies m.key_index[kid].1.map_values(
                    |h: u64| m.values[h],
                ) == any_values_after(calls, kid) by {
                    assert(p.key_index.contains_key(kid));
                    let l = p.key_index[kid].1;
                    if kid == k {
                        lemma_filter_map(l, slot_differs(p.values, v), read, value_differs(v));
                        assert(m.key_index[kid].1.map_values(|h: u64| m.values[h]) =~= l.filter(
                            slot_differs(p.values, v),
                        ).map_values(read));
                        assert(l.map_values(read) =~= l.map_values(|h: u64| p.values[h]));
                    } else {
                        assert(m.key_index[kid] == p.key_index[kid]);
                    }
                }
                let pf = |r: (u64, u64)| (p.keys[r.0], p.values[r.1]);
                assert forall|v2: usize| #[trigger] m.value_index.contains_key(v2) implies m.value_index[v2].1.map_values(
                    |r: (u64, u64)| (m.keys[r.0], m.values[r.1]),
                ) == relations_after(calls, v2) by {
                    assert(p.value_index.contains_key(v2));
                    let rs = p.value_index[v2].1;
                    if v2 == id_of(v) {
                        lemma_filter_map(rs, relation_differs(p.keys, p.values, k, v), pf, pair_differs(k, v));
                        assert(m.value_index[v2].1.map_values(|r: (u64, u64)| (m.keys[r.0], m.values[r.1])) =~= rs.filter(
                            relation_differs(p.keys, p.values, k, v),
                        ).map_values(pf));
                        assert(rs.map_values(pf) =~= rs.map_values(|r: (u64, u64)| (p.keys[r.0], p.values[r.1])));
                    } else {
                        assert(m.value_index[v2] == p.value_index[v2]);
                    }
                }
            },
        }
    }
}

/// The history of an any-value map: after any sequence of insertions and
/// removals from a new map, the key ids with a list are exactly those some
/// insertion named, and so are the value ids; what `get` gives for a key id
/// and a kind is, in order, the values of that kind that insertions for it
/// added and no later removal for it took away; and what `get_value` gives
/// under a value id for a value `w` is, in order, the keys of the insertions
/// under that id whose value is the same as `w`, less those a later removal
/// undid.
pub proof fn law_any_history(maps: Seq<AnyMapView>, calls: Seq<AnyMapCall>)
    requires
        is_any_run(maps, calls),
    ensures
        ({
            let m = maps.last();
            &&& m.wf()
            &&& m.key_index.dom() == any_key_ids(calls)
            &&& m.value_index.dom() == any_value_ids(calls)
            &&& forall|kid: usize, kind: ValueKind|
                m.key_index.contains_key(kid) ==> #[trigger] m.values_of_kind(kid, kind) == any_values_after(
                    calls,
                    kid,
                ).filter(|x: AnyValue| kind_of(x) == kind)
            &&& forall|vid: usize, w: AnyValue|
                m.value_index.contains_key(vid) ==> #[trigger] m.keys_with_value(vid, w) == relations_after(
                    calls,
                    vid,
                ).filter(pair_has_value(w)).map_values(|p: (usize, AnyValue)| p.0)
        }),
{
    let m = maps.last();
    lemma_any_history_lists(maps, calls);
    let read = |h: u64| m.values[h];
    assert forall|kid: usize, kind: ValueKind| m.key_index.contains_key(kid) implies #[trigger] m.values_of_kind(
        kid,
        kind,
    ) == any_values_after(calls, kid).filter(|x: AnyValue| kind_of(x) == kind) by {
        let l = m.key_index[kid].1;
        lemma_filter_map(l, slot_has_kind(m.values, kind), read, |x: AnyValue| kind_of(x) == kind);
        assert(l.map_values(read) =~= l.map_values(|h: u64| m.values[h]));
        assert(m.values_of_kind(kid, kind) =~= l.filter(slot_has_kind(m.values, kind)).map_values(read));
    }
    let pf = |r: (u64, u64)| (m.keys[r.0], m.values[r.1]);
    let first = |p: (usize, AnyValue)| p.0;
    assert forall|vid: usize, w: AnyValue| m.value_index.contains_key(vid) implies #[trigger] m.keys_with_value(
        vid,
        w,
    ) == relations_after(calls, vid).filter(pair_has_value(w)).map_values(first) by {
        let rs = m.value_index[vid].1;
        lemma_filter_map(rs, relation_has_value(m.values, w), pf, pair_has_value(w));
        assert(rs.map_values(pf) =~= rs.map_values(|r: (u64, u64)| (m.keys[r.0], m.values[r.1])));
        let kept = rs.filter(relation_has_value(m.values, w));
        assert(kept.map_values(pf).map_values(first) =~= kept.map_values(|r: (u64, u64)| m.keys[r.0]));
        assert(m.keys_with_value(vid, w) =~= kept.map_values(|r: (u64, u64)| m.keys[r.0]));
    }
}

/// What `get` gives for a key and a kind is exactly the key's values of that
/// kind, in order: read the key's values and keep those of the kind.
pub proof fn law_get_keeps_the_kind(m: AnyMapView, kid: usize, kind: ValueKind)
    requires
        m.wf(),
        m.key_index.contains_key(kid),
    ensures
        m.values_of_kind(kid, kind) == m.key_index[kid].1.map_values(|h: u64| m.values[h]).filter(
            |x: AnyValue| kind_of(x) == kind,
        ),
        forall|i: int|
            0 <= i < m.values_of_kind(kid, kind).len() ==> kind_of(#[trigger] m.values_of_kind(kid, kind)[i])
                == kind,
{
    let l = m.key_index[kid].1;
    let read = |h: u64| m.values[h];
    let p = slot_has_kind(m.values, kind);
    lemma_filter_map(l, p, read, |x: AnyValue| kind_of(x) == kind);
    assert(m.values_of_kind(kid, kind) =~= l.filter(p).map_values(read));
    assert(l.map_values(read) =~= l.map_values(|h: u64| m.values[h]));
    assert forall|i: int| 0 <= i < m.values_of_kind(kid, kind).len() implies kind_of(
        #[trigger] m.values_of_kind(kid, kind)[i],
    ) == kind by {
        l.lemma_filter_pred(p, i);
    }
}

/// Every key that `get_value` gives for `w` under `vid` is the key of a
/// relation filed there whose value is the same as `w`, in the order of
/// those relations.
pub proof fn law_get_value_matches(m: AnyMapView, vid: usize, w: AnyValue)
    requires
        m.wf(),
        m.value_index.contains_key(vid),
    ensures
        m.keys_with_value(vid, w) == m.value_index[vid].1.map_values(
            |r: (u64, u64)| (m.keys[r.0], m.values[r.1]),
        ).filter(pair_has_value(w)).map_values(|p: (usize, AnyValue)| p.0),
{
    let rs = m.value_index[vid].1;
    let pf = |r: (u64, u64)| (m.keys[r.0], m.values[r.1]);
    let first = |p: (usize, AnyValue)| p.0;
    lemma_filter_map(rs, relation_has_value(m.values, w), pf, pair_has_value(w));
    assert(rs.map_values(pf) =~= rs.map_values(|r: (u64, u64)| (m.keys[r.0], m.values[r.1])));
    let kept = rs.filter(relation_has_value(m.values, w));
    assert(kept.map_values(pf).map_values(first) =~= kept.map_values(|r: (u64, u64)| m.keys[r.0]));
    assert(m.keys_with_value(vid, w) =~= kept.map_values(|r: (u64, u64)| m.keys[r.0]));
}

} // verus!
