use vstd::prelude::*;

verus! {

/// `s` with `h` appended, unless `s` already holds `h`.
pub open spec fn push_absent<A>(s: Seq<A>, h: A) -> Seq<A> {
    if s.contains(h) {
        s
    } else {
        s.push(h)
    }
}

/// Whether `list` holds `h`.
pub fn contains_handle(list: &Vec<u64>, h: u64) -> (found: bool)
    ensures
        found == list@.contains(h),
{
    let mut i: usize = 0;
    while i < list.len()
        invariant
            0 <= i <= list.len(),
            forall|j: int| 0 <= j < i ==> list@[j] != h,
        decreases list.len() - i,
    {
        if list[i] == h {
            assert(list@[i as int] == h);
            return true;
        }
        i += 1;
    }
    false
}

/// Appending an element that a duplicate-free sequence lacks keeps it free of
/// duplicates.
pub proof fn lemma_push_absent_no_duplicates<A>(s: Seq<A>, h: A)
    requires
        s.no_duplicates(),
    ensures
        push_absent(s, h).no_duplicates(),
        forall|x: A| #[trigger] push_absent(s, h).contains(x) <==> (s.contains(x) || x == h),
{
    if !s.contains(h) {
        let t = s.push(h);
        assert forall|i: int, j: int|
            0 <= i < t.len() && 0 <= j < t.len() && i != j implies t[i] != t[j] by {
            if i == s.len() {
                assert(s.contains(t[j]));
            } else if j == s.len() {
                assert(s.contains(t[i]));
            }
        }
        assert forall|x: A| #[trigger] t.contains(x) <==> (s.contains(x) || x == h) by {
            if t.contains(x) {
                let k = choose|k: int| 0 <= k < t.len() && t[k] == x;
                if k < s.len() {
                    assert(s[k] == x);
                }
            }
            if s.contains(x) {
                let k = choose|k: int| 0 <= k < s.len() && s[k] == x;
                assert(t[k] == x);
            }
            if x == h {
                assert(t[s.len() as int] == x);
            }
        }
    }
}

/// What a filter keeps: exactly the elements of the sequence that the
/// predicate accepts; and it keeps a duplicate-free sequence free of
/// duplicates.
pub proof fn lemma_filter_facts<A>(s: Seq<A>, pred: spec_fn(A) -> bool)
    ensures
        forall|x: A| #[trigger] s.filter(pred).contains(x) <==> (s.contains(x) && pred(x)),
        s.no_duplicates() ==> s.filter(pred).no_duplicates(),
    decreases s.len(),
{
    broadcast use vstd::seq_lib::group_filter_ensures;

    reveal(Seq::filter);
    if s.len() > 0 {
        let rest = s.drop_last();
        let last = s.last();
        lemma_filter_facts(rest, pred);
        assert(s =~= rest.push(last));
        rest.lemma_filter_push(last, pred);
        assert forall|x: A| #[trigger] s.filter(pred).contains(x) <==> (s.contains(x) && pred(x)) by {
            if s.contains(x) {
                let k = choose|k: int| 0 <= k < s.len() && s[k] == x;
                if k < rest.len() {
                    assert(rest[k] == x);
                }
            }
            if rest.contains(x) {
                let k = choose|k: int| 0 <= k < rest.len() && rest[k] == x;
                assert(s[k] == x);
            }
            if pred(last) {
                assert(rest.filter(pred).push(last).last() == last);
                if rest.filter(pred).contains(x) {
                    let k = choose|k: int| 0 <= k < rest.filter(pred).len() && rest.filter(pred)[k] == x;
                    assert(rest.filter(pred).push(last)[k] == x);
                }
                if rest.filter(pred).push(last).contains(x) {
                    let k = choose|k: int| 0 <= k < rest.filter(pred).push(last).len() && rest.filter(pred).push(last)[k] == x;
                    if k < rest.filter(pred).len() {
                        assert(rest.filter(pred)[k] == x);
                    }
                }
            }
        }
        if s.no_duplicates() {
            assert(rest.no_duplicates());
            if pred(last) {
                assert(!rest.contains(last)) by {
                    if rest.contains(last) {
                        let k = choose|k: int| 0 <= k < rest.len() && rest[k] == last;
                        assert(s[k] == s[s.len() - 1]);
                    }
                }
                lemma_push_absent_no_duplicates(rest.filter(pred), last);
            }
        }
    }
}

/// A filter whose predicate accepts every element keeps the sequence whole.
pub proof fn lemma_filter_keeps_all<A>(s: Seq<A>, p: spec_fn(A) -> bool)
    requires
        forall|i: int| 0 <= i < s.len() ==> p(#[trigger] s[i]),
    ensures
        s.filter(p) == s,
    decreases s.len(),
{
    reveal(Seq::filter);
    if s.len() > 0 {
        let rest = s.drop_last();
        assert forall|i: int| 0 <= i < rest.len() implies p(#[trigger] rest[i]) by {
            assert(rest[i] == s[i]);
        }
        lemma_filter_keeps_all(rest, p);
        assert(p(s[s.len() - 1]));
        assert(rest.push(s.last()) =~= s);
    }
}

/// Filters whose predicates agree on the elements of `s` keep the same
/// elements.
pub proof fn lemma_filter_agree<A>(s: Seq<A>, p: spec_fn(A) -> bool, q: spec_fn(A) -> bool)
    requires
        forall|i: int| 0 <= i < s.len() ==> p(#[trigger] s[i]) == q(s[i]),
    ensures
        s.filter(p) == s.filter(q),
    decreases s.len(),
{
    reveal(Seq::filter);
    if s.len() > 0 {
        let rest = s.drop_last();
        assert forall|i: int| 0 <= i < rest.len() implies p(#[trigger] rest[i]) == q(rest[i]) by {
            assert(rest[i] == s[i]);
        }
        lemma_filter_agree(rest, p, q);
        assert(p(s[s.len() - 1]) == q(s[s.len() - 1]));
    }
}

/// What a filter keeps lies among the elements of the sequence.
pub proof fn lemma_filter_within<A>(s: Seq<A>, p: spec_fn(A) -> bool, i: int)
    requires
        0 <= i < s.filter(p).len(),
    ensures
        s.contains(s.filter(p)[i]),
{
    assert(s.filter(p).contains(s.filter(p)[i]));
    s.lemma_filter_contains_rev(p, s.filter(p)[i]);
}

/// Filtering and then reading each element is reading and then filtering,
/// when the two predicates agree on every element.
pub proof fn lemma_filter_map<A, B>(s: Seq<A>, p: spec_fn(A) -> bool, f: spec_fn(A) -> B, q: spec_fn(B) -> bool)
    requires
        forall|i: int| 0 <= i < s.len() ==> p(#[trigger] s[i]) == q(f(s[i])),
    ensures
        s.filter(p).map_values(f) == s.map_values(f).filter(q),
    decreases s.len(),
{
    reveal(Seq::filter);
    if s.len() == 0 {
        assert(s.map_values(f) =~= Seq::<B>::empty());
        assert(s.filter(p).map_values(f) =~= Seq::<B>::empty());
    } else {
        let rest = s.drop_last();
        let last = s.last();
        assert forall|i: int| 0 <= i < rest.len() implies p(#[trigger] rest[i]) == q(f(rest[i])) by {
            assert(rest[i] == s[i]);
        }
        lemma_filter_map(rest, p, f, q);
        assert(s =~= rest.push(last));
        rest.lemma_filter_push(last, p);
        assert(s.map_values(f) =~= rest.map_values(f).push(f(last)));
        rest.map_values(f).lemma_filter_push(f(last), q);
        assert(p(s[s.len() - 1]) == q(f(s[s.len() - 1])));
        let kept = rest.filter(p);
        assert(kept.push(last).map_values(f) =~= kept.map_values(f).push(f(last)));
    }
}

/// Two filters may be applied in either order.
pub proof fn lemma_filter_commute<A>(s: Seq<A>, p: spec_fn(A) -> bool, q: spec_fn(A) -> bool)
    ensures
        s.filter(p).filter(q) == s.filter(q).filter(p),
    decreases s.len(),
{
    reveal(Seq::filter);
    if s.len() > 0 {
        let rest = s.drop_last();
        let last = s.last();
        lemma_filter_commute(rest, p, q);
        assert(s =~= rest.push(last));
        rest.lemma_filter_push(last, p);
        rest.lemma_filter_push(last, q);
        rest.filter(p).lemma_filter_push(last, q);
        rest.filter(q).lemma_filter_push(last, p);
    }
}

/// The items of `s` after the item at slot `s[i]` is replaced by `x`: when
/// `s` lists no slot twice, exactly position `i` changes.
pub proof fn lemma_read_after_write<V>(s: Seq<u64>, store: Map<u64, V>, i: int, x: V)
    requires
        s.no_duplicates(),
        0 <= i < s.len(),
    ensures
        s.map_values(|h: u64| store.insert(s[i], x)[h]) == s.map_values(|h: u64| store[h]).update(i, x),
{
    let before = s.map_values(|h: u64| store[h]);
    let after = s.map_values(|h: u64| store.insert(s[i], x)[h]);
    assert forall|j: int| 0 <= j < s.len() implies after[j] == before.update(i, x)[j] by {
        if j != i {
            assert(s[j] != s[i]);
        }
    }
    assert(after =~= before.update(i, x));
}

} // verus!
