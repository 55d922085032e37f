//! Orders, sorting, and the sorted form of a collection.

use vstd::prelude::*;
use vstd::utf8::*;
use crate::bytes::{byte_rows, copy_bytes};

verus! {

/// Values that are sorted by a key under a strict total order.
pub trait Ranked: Sized {
    type Key;

    /// What the value is ordered by.
    spec fn key(&self) -> Self::Key;

    /// Whether `a` comes before `b`.
    spec fn precedes(a: Self::Key, b: Self::Key) -> bool;

    proof fn precedes_irreflexive(a: Self::Key)
        ensures
            !Self::precedes(a, a),
    ;

    proof fn precedes_transitive(a: Self::Key, b: Self::Key, c: Self::Key)
        requires
            Self::precedes(a, b),
            Self::precedes(b, c),
        ensures
            Self::precedes(a, c),
    ;

    proof fn precedes_total(a: Self::Key, b: Self::Key)
        ensures
            a == b || Self::precedes(a, b) || Self::precedes(b, a),
    ;

    /// Whether this value comes before `other`.
    fn less(&self, other: &Self) -> (r: bool)
        ensures
            r == Self::precedes(self.key(), other.key()),
    ;
}

/// The keys of a sequence of values.
pub open spec fn keys<T: Ranked>(items: Seq<T>) -> Seq<T::Key> {
    Seq::new(items.len(), |i: int| items[i].key())
}

/// Whether each key comes before all that follow it.
pub open spec fn ascending<T: Ranked>(s: Seq<T::Key>) -> bool {
    forall|i: int, j: int| 0 <= i < j < s.len() ==> T::precedes(#[trigger] s[i], #[trigger] s[j])
}

/// Whether the sequences hold the same keys, however often and in whatever order.
pub open spec fn same_keys<K>(a: Seq<K>, b: Seq<K>) -> bool {
    forall|k: K| #[trigger] a.contains(k) <==> b.contains(k)
}

/// The keys of `s` in ascending order, each once.
pub open spec fn sorted_form<T: Ranked>(s: Seq<T::Key>) -> Seq<T::Key> {
    choose|t: Seq<T::Key>| ascending::<T>(t) && same_keys(t, s)
}

/// Two ascending sequences of the same keys are equal.
pub proof fn lemma_ascending_unique<T: Ranked>(a: Seq<T::Key>, b: Seq<T::Key>)
    requires
        ascending::<T>(a),
        ascending::<T>(b),
        same_keys(a, b),
    ensures
        a == b,
    decreases a.len(),
{
    if a.len() == 0 {
        if b.len() > 0 {
            assert(b.contains(b[0]));
            assert(a.contains(b[0]));
        }
        assert(a =~= b);
    } else {
        assert(a.contains(a.last()));
        assert(b.contains(a.last()));
        let n = b.len() - 1;
        assert(b.contains(b.last()));
        assert(a.contains(b.last()));
        let i = choose|i: int| 0 <= i < b.len() && b[i] == a.last();
        let j = choose|j: int| 0 <= j < a.len() && a[j] == b.last();
        if i < n {
            T::precedes_irreflexive(a.last());
            if j < a.len() - 1 {
                assert(T::precedes(a[j], a[a.len() - 1]));
                assert(T::precedes(b[i], b[n]));
                T::precedes_transitive(a.last(), b.last(), a.last());
            } else {
                assert(T::precedes(b[i], b[n]));
            }
        }
        assert(a.last() == b.last());
        let ra = a.drop_last();
        let rb = b.drop_last();
        assert forall|k: T::Key| #[trigger] ra.contains(k) implies rb.contains(k) by {
            let x = choose|x: int| 0 <= x < ra.len() && ra[x] == k;
            assert(a[x] == k);
            assert(a.contains(k));
            assert(b.contains(k));
            let y = choose|y: int| 0 <= y < b.len() && b[y] == k;
            assert(T::precedes(a[x], a[a.len() - 1]));
            T::precedes_irreflexive(k);
            assert(y < n);
            assert(rb[y] == k);
        }
        assert forall|k: T::Key| #[trigger] rb.contains(k) implies ra.contains(k) by {
            let x = choose|x: int| 0 <= x < rb.len() && rb[x] == k;
            assert(b[x] == k);
            assert(b.contains(k));
            assert(a.contains(k));
            let y = choose|y: int| 0 <= y < a.len() && a[y] == k;
            assert(T::precedes(b[x], b[n]));
            T::precedes_irreflexive(k);
            assert(y < a.len() - 1);
            assert(ra[y] == k);
        }
        lemma_ascending_unique::<T>(ra, rb);
        assert(a =~= ra.push(a.last()));
        assert(b =~= rb.push(b.last()));
    }
}

/// An ascending sequence of the same keys is the sorted form.
pub proof fn lemma_sorted_form<T: Ranked>(t: Seq<T::Key>, s: Seq<T::Key>)
    requires
        ascending::<T>(t),
        same_keys(t, s),
    ensures
        sorted_form::<T>(s) == t,
{
    let u = sorted_form::<T>(s);
    assert(ascending::<T>(u) && same_keys(u, s));
    assert forall|k: T::Key| #[trigger] t.contains(k) <==> u.contains(k) by {
        assert(t.contains(k) <==> s.contains(k));
        assert(u.contains(k) <==> s.contains(k));
    }
    lemma_ascending_unique::<T>(u, t);
}

/// An ascending sequence with one more key at its place.
spec fn with_key<T: Ranked>(t: Seq<T::Key>, key: T::Key) -> Seq<T::Key>
    decreases t.len(),
{
    if t.len() == 0 {
        seq![key]
    } else if t.last() == key {
        t
    } else if T::precedes(t.last(), key) {
        t.push(key)
    } else {
        with_key::<T>(t.drop_last(), key).push(t.last())
    }
}

proof fn lemma_with_key<T: Ranked>(t: Seq<T::Key>, key: T::Key)
    requires
        ascending::<T>(t),
    ensures
        ascending::<T>(with_key::<T>(t, key)),
        forall|k: T::Key| #[trigger]
            with_key::<T>(t, key).contains(k) <==> t.contains(k) || k == key,
    decreases t.len(),
{
    let out = with_key::<T>(t, key);
    if t.len() == 0 {
        assert(out[0] == key);
    } else if t.last() == key {
        assert(t[t.len() - 1] == key);
    } else if T::precedes(t.last(), key) {
        assert forall|i: int, j: int| 0 <= i < j < out.len() implies T::precedes(
            #[trigger] out[i],
            #[trigger] out[j],
        ) by {
            if j == t.len() && i < t.len() - 1 {
                assert(T::precedes(t[i], t[t.len() - 1]));
                T::precedes_transitive(t[i], t.last(), key);
            }
        }
        assert forall|k: T::Key| #[trigger] out.contains(k) <==> t.contains(k) || k == key by {
            if t.contains(k) {
                let x = choose|x: int| 0 <= x < t.len() && t[x] == k;
                assert(out[x] == k);
            }
            if k == key {
                assert(out[t.len() as int] == k);
            }
        }
    } else {
        T::precedes_total(t.last(), key);
        let rest = t.drop_last();
        lemma_with_key::<T>(rest, key);
        let inner = with_key::<T>(rest, key);
        assert forall|k: T::Key| #[trigger] out.contains(k) <==> t.contains(k) || k == key by {
            if inner.contains(k) {
                let x = choose|x: int| 0 <= x < inner.len() && inner[x] == k;
                assert(out[x] == k);
            }
            if k == t.last() {
                assert(out[inner.len() as int] == k);
            }
            if t.contains(k) {
                let x = choose|x: int| 0 <= x < t.len() && t[x] == k;
                if x < t.len() - 1 {
                    assert(rest[x] == k);
                }
            }
            if rest.contains(k) {
                let x = choose|x: int| 0 <= x < rest.len() && rest[x] == k;
                assert(t[x] == k);
            }
            if out.contains(k) {
                let x = choose|x: int| 0 <= x < out.len() && out[x] == k;
                if x < inner.len() {
                    assert(inner[x] == k);
                } else {
                    assert(t[t.len() - 1] == k);
                }
            }
        }
        assert forall|i: int, j: int| 0 <= i < j < out.len() implies T::precedes(
            #[trigger] out[i],
            #[trigger] out[j],
        ) by {
            if j == inner.len() {
                assert(inner.contains(inner[i]));
                if rest.contains(inner[i]) {
                    let x = choose|x: int| 0 <= x < rest.len() && rest[x] == inner[i];
                    assert(T::precedes(t[x], t[t.len() - 1]));
                }
            }
        }
    }
}

/// Every sequence of keys has a sorted form.
pub proof fn lemma_sorted_form_exists<T: Ranked>(s: Seq<T::Key>)
    ensures
        ascending::<T>(sorted_form::<T>(s)),
        same_keys(sorted_form::<T>(s), s),
    decreases s.len(),
{
    if s.len() == 0 {
        assert(ascending::<T>(s) && same_keys(s, s));
    } else {
        let rest = s.drop_last();
        lemma_sorted_form_exists::<T>(rest);
        let t = with_key::<T>(sorted_form::<T>(rest), s.last());
        lemma_with_key::<T>(sorted_form::<T>(rest), s.last());
        assert forall|k: T::Key| #[trigger] t.contains(k) <==> s.contains(k) by {
            assert(sorted_form::<T>(rest).contains(k) <==> rest.contains(k));
            if rest.contains(k) {
                let x = choose|x: int| 0 <= x < rest.len() && rest[x] == k;
                assert(s[x] == k);
            }
            if k == s.last() {
                assert(s[s.len() - 1] == k);
            }
            if s.contains(k) {
                let x = choose|x: int| 0 <= x < s.len() && s[x] == k;
                if x < s.len() - 1 {
                    assert(rest[x] == k);
                }
            }
        }
        assert(ascending::<T>(t) && same_keys(t, s));
    }
}

/// Whether the item at `i` comes before the one at `j`: by key, and by position where the keys are
/// equal.
pub open spec fn goes_first<T: Ranked>(items: Seq<T>, i: int, j: int) -> bool {
    T::precedes(items[i].key(), items[j].key()) || (items[i].key() == items[j].key() && i < j)
}

/// Whether `order` lists the positions `lo..hi` in the order of their items.
pub open spec fn is_order<T: Ranked>(items: Seq<T>, order: Seq<usize>, lo: int, hi: int) -> bool {
    &&& order.len() == hi - lo
    &&& forall|k: int| 0 <= k < order.len() ==> lo <= (#[trigger] order[k]) < hi
    &&& forall|a: int, b: int|
        0 <= a < b < order.len() ==> goes_first(
            items,
            (#[trigger] order[a]) as int,
            (#[trigger] order[b]) as int,
        )
    &&& forall|i: usize| lo <= i < hi ==> #[trigger] order.contains(i)
}

proof fn lemma_goes_first_transitive<T: Ranked>(items: Seq<T>, i: int, j: int, k: int)
    requires
        goes_first(items, i, j),
        goes_first(items, j, k),
    ensures
        goes_first(items, i, k),
{
    let (a, b, c) = (items[i].key(), items[j].key(), items[k].key());
    if T::precedes(a, b) && T::precedes(b, c) {
        T::precedes_transitive(a, b, c);
    }
}

/// Merge two orders of neighbouring ranges.
fn merge_orders<T: Ranked>(
    items: &[T],
    left: &Vec<usize>,
    right: &Vec<usize>,
    Ghost(lo): Ghost<int>,
    Ghost(mid): Ghost<int>,
    Ghost(hi): Ghost<int>,
) -> (out: Vec<usize>)
    requires
        0 <= lo <= mid <= hi <= items@.len(),
        is_order(items@, left@, lo, mid),
        is_order(items@, right@, mid, hi),
    ensures
        is_order(items@, out@, lo, hi),
{
    let mut out: Vec<usize> = Vec::with_capacity(left.len());
    let mut i: usize = 0;
    let mut j: usize = 0;
    while i < left.len() || j < right.len()
        invariant
            i <= left@.len(),
            j <= right@.len(),
            0 <= lo <= mid <= hi <= items@.len(),
            is_order(items@, left@, lo, mid),
            is_order(items@, right@, mid, hi),
            out@.len() == i + j,
            forall|k: int| 0 <= k < out@.len() ==> lo <= (#[trigger] out@[k]) < hi,
            forall|a: int, b: int|
                0 <= a < b < out@.len() ==> goes_first(
                    items@,
                    (#[trigger] out@[a]) as int,
                    (#[trigger] out@[b]) as int,
                ),
            forall|a: int, b: int|
                0 <= a < out@.len() && i <= b < left@.len() ==> goes_first(
                    items@,
                    (#[trigger] out@[a]) as int,
                    (#[trigger] left@[b]) as int,
                ),
            forall|a: int, b: int|
                0 <= a < out@.len() && j <= b < right@.len() ==> goes_first(
                    items@,
                    (#[trigger] out@[a]) as int,
                    (#[trigger] right@[b]) as int,
                ),
            forall|k: int| 0 <= k < i ==> out@.contains(#[trigger] left@[k]),
            forall|k: int| 0 <= k < j ==> out@.contains(#[trigger] right@[k]),
        decreases left@.len() - i + right@.len() - j,
    {
        let ghost before = out@;
        let take_left: bool = if i == left.len() {
            false
        } else if j == right.len() {
            true
        } else {
            !items[right[j]].less(&items[left[i]])
        };
        if take_left {
            let next: usize = left[i];
            proof {
                if j < right@.len() {
                    T::precedes_total(items@[next as int].key(), items@[right@[j as int] as int].key());
                    assert(goes_first(items@, next as int, right@[j as int] as int));
                    assert forall|b: int| j <= b < right@.len() implies goes_first(
                        items@,
                        next as int,
                        (#[trigger] right@[b]) as int,
                    ) by {
                        if b > j {
                            lemma_goes_first_transitive(
                                items@,
                                next as int,
                                right@[j as int] as int,
                                right@[b] as int,
                            );
                        }
                    }
                }
            }
            out.push(next);
            i = i + 1;
        } else {
            let next: usize = right[j];
            proof {
                if i < left@.len() {
                    assert(goes_first(items@, next as int, left@[i as int] as int));
                    assert forall|b: int| i <= b < left@.len() implies goes_first(
                        items@,
                        next as int,
                        (#[trigger] left@[b]) as int,
                    ) by {
                        if b > i {
                            lemma_goes_first_transitive(
                                items@,
                                next as int,
                                left@[i as int] as int,
                                left@[b] as int,
                            );
                        }
                    }
                }
            }
            out.push(next);
            j = j + 1;
        }
        proof {
            assert(out@.drop_last() =~= before);
            assert(out@.contains(out@.last())) by {
                assert(out@[out@.len() - 1] == out@.last());
            }
            assert forall|x: usize| #[trigger] before.contains(x) implies out@.contains(x) by {
                let p = choose|p: int| 0 <= p < before.len() && before[p] == x;
                assert(out@[p] == x);
            }
        }
    }
    proof {
        assert forall|x: usize| lo <= x < hi implies #[trigger] out@.contains(x) by {
            if x < mid {
                assert(left@.contains(x));
                let p = choose|p: int| 0 <= p < left@.len() && left@[p] == x;
                assert(out@.contains(left@[p]));
            } else {
                assert(right@.contains(x));
                let p = choose|p: int| 0 <= p < right@.len() && right@[p] == x;
                assert(out@.contains(right@[p]));
            }
        }
    }
    out
}

/// The positions `lo..hi` in the order of their items.
fn order_range<T: Ranked>(items: &[T], lo: usize, hi: usize) -> (out: Vec<usize>)
    requires
        lo <= hi <= items@.len(),
    ensures
        is_order(items@, out@, lo as int, hi as int),
    decreases hi - lo,
{
    if hi - lo == 0 {
        return Vec::new();
    }
    if hi - lo == 1 {
        let mut out: Vec<usize> = Vec::new();
        out.push(lo);
        assert(out@[0] == lo);
        return out;
    }
    let mid: usize = lo + (hi - lo) / 2;
    let left: Vec<usize> = order_range(items, lo, mid);
    let right: Vec<usize> = order_range(items, mid, hi);
    merge_orders(
        items,
        &left,
        &right,
        Ghost(lo as int),
        Ghost(mid as int),
        Ghost(hi as int),
    )
}

/// The positions of the items in ascending order; items with equal keys keep their order.
pub fn order_of<T: Ranked>(items: &[T]) -> (out: Vec<usize>)
    ensures
        is_order(items@, out@, 0, items@.len() as int),
{
    order_range(items, 0, items.len())
}

/// The positions of the items in ascending order; items with equal keys keep their order.
pub open spec fn order_form<T: Ranked>(items: Seq<T>) -> Seq<usize> {
    choose|order: Seq<usize>| is_order(items, order, 0, items.len() as int)
}

proof fn lemma_same_start<T: Ranked>(items: Seq<T>, p: Seq<usize>, q: Seq<usize>, n: int)
    requires
        is_order(items, p, 0, items.len() as int),
        is_order(items, q, 0, items.len() as int),
        0 <= n <= items.len(),
    ensures
        forall|k: int| 0 <= k < n ==> #[trigger] p[k] == q[k],
    decreases n,
{
    if n > 0 {
        lemma_same_start(items, p, q, n - 1);
        let k = n - 1;
        if p[k] != q[k] {
            assert(p.contains(q[k]) && q.contains(p[k]));
            let a = choose|a: int| 0 <= a < p.len() && p[a] == q[k];
            let b = choose|b: int| 0 <= b < q.len() && q[b] == p[k];
            if a < k {
                assert(q[a] == q[k]);
                assert(goes_first(items, q[a] as int, q[k] as int));
                T::precedes_irreflexive(items[q[k] as int].key());
            }
            if b < k {
                assert(p[b] == p[k]);
                assert(goes_first(items, p[b] as int, p[k] as int));
                T::precedes_irreflexive(items[p[k] as int].key());
            }
            assert(goes_first(items, p[k] as int, p[a] as int));
            assert(goes_first(items, q[k] as int, q[b] as int));
            lemma_goes_first_transitive(items, p[k] as int, q[k] as int, p[k] as int);
            T::precedes_irreflexive(items[p[k] as int].key());
        }
    }
}

/// There is one order of the items.
pub proof fn lemma_order_unique<T: Ranked>(items: Seq<T>, order: Seq<usize>)
    requires
        is_order(items, order, 0, items.len() as int),
    ensures
        order_form(items) == order,
{
    lemma_same_start(items, order_form(items), order, items.len() as int);
    assert(order_form(items) =~= order);
}

/// What one more key does to the distinct keys of a sorted sequence.
proof fn lemma_distinct_step<T: Ranked>(distinct: Seq<T::Key>, all: Seq<T::Key>, key: T::Key)
    requires
        ascending::<T>(distinct),
        same_keys(distinct, all),
        all.len() == 0 <==> distinct.len() == 0,
        all.len() > 0 ==> distinct.last() == all.last() && (key == all.last() || T::precedes(
            all.last(),
            key,
        )),
    ensures
        all.len() > 0 && key == all.last() ==> same_keys(distinct, all.push(key)),
        all.len() == 0 || key != all.last() ==> ascending::<T>(distinct.push(key)) && same_keys(
            distinct.push(key),
            all.push(key),
        ),
{
    let more = all.push(key);
    assert forall|k: T::Key| #[trigger] more.contains(k) <==> all.contains(k) || k == key by {
        if all.contains(k) {
            let x = choose|x: int| 0 <= x < all.len() && all[x] == k;
            assert(more[x] == k);
        }
        if k == key {
            assert(more[all.len() as int] == k);
        }
    }
    if all.len() > 0 && key == all.last() {
        assert(all[all.len() - 1] == key);
        assert forall|k: T::Key| #[trigger] distinct.contains(k) <==> more.contains(k) by {}
    } else {
        let wider = distinct.push(key);
        assert forall|k: T::Key| #[trigger] wider.contains(k) <==> more.contains(k) by {
            if distinct.contains(k) {
                let x = choose|x: int| 0 <= x < distinct.len() && distinct[x] == k;
                assert(wider[x] == k);
            }
            if k == key {
                assert(wider[distinct.len() as int] == k);
            }
        }
        assert forall|i: int, j: int| 0 <= i < j < wider.len() implies T::precedes(
            #[trigger] wider[i],
            #[trigger] wider[j],
        ) by {
            if j == distinct.len() && i < distinct.len() - 1 {
                assert(T::precedes(distinct[i], distinct[distinct.len() - 1]));
                T::precedes_transitive(distinct[i], distinct.last(), key);
            }
        }
    }
}

/// The keys of the items at the positions `order`.
pub open spec fn keys_at<T: Ranked>(items: Seq<T>, order: Seq<usize>) -> Seq<T::Key> {
    Seq::new(order.len(), |k: int| items[order[k] as int].key())
}

/// An order of all items lists the same keys as the items.
pub proof fn lemma_order_keys<T: Ranked>(items: Seq<T>, order: Seq<usize>)
    requires
        is_order(items, order, 0, items.len() as int),
        items.len() <= usize::MAX,
    ensures
        same_keys(keys_at(items, order), keys(items)),
{
    assert forall|k: T::Key| #[trigger] keys_at(items, order).contains(k) <==> keys(
        items,
    ).contains(k) by {
        if keys_at(items, order).contains(k) {
            let x = choose|x: int|
                0 <= x < keys_at(items, order).len() && keys_at(items, order)[x] == k;
            assert(keys(items)[order[x] as int] == k);
        }
        if keys(items).contains(k) {
            let x = choose|x: int| 0 <= x < keys(items).len() && keys(items)[x] == k;
            assert(order.contains(x as usize));
            let a = choose|a: int| 0 <= a < order.len() && order[a] == x as usize;
            assert(keys_at(items, order)[a] == k);
        }
    }
}

/// Whether `ranks` gives each item the place of its key among the items at `places`.
pub open spec fn are_ranks<T: Ranked>(items: Seq<T>, places: Seq<usize>, ranks: Seq<usize>) -> bool {
    &&& ranks.len() == items.len()
    &&& forall|i: int|
        0 <= i < items.len() ==> (#[trigger] ranks[i]) < places.len() && items[places[ranks[i] as int] as int].key()
            == items[i].key()
}

/// Whether no item before the one at `i` has its key.
pub open spec fn is_first<T: Ranked>(items: Seq<T>, i: int) -> bool {
    forall|j: int| 0 <= j < i ==> (#[trigger] items[j]).key() != items[i].key()
}

/// Where a new key comes up in an order, the item is the first with its key.
proof fn lemma_fresh_is_first<T: Ranked>(items: Seq<T>, order: Seq<usize>, i: int)
    requires
        is_order(items, order, 0, items.len() as int),
        items.len() <= usize::MAX,
        0 <= i < order.len(),
        i > 0 ==> T::precedes(items[order[i - 1] as int].key(), items[order[i] as int].key()),
    ensures
        is_first(items, order[i] as int),
{
    let next = order[i] as int;
    let key = items[next].key();
    assert forall|j: int| 0 <= j < next implies (#[trigger] items[j]).key() != key by {
        T::precedes_irreflexive(key);
        assert(order.contains(j as usize));
        let p = choose|p: int| 0 <= p < order.len() && order[p] == j as usize;
        if p < i {
            let last = items[order[i - 1] as int].key();
            if p < i - 1 {
                assert(goes_first(items, order[p] as int, order[i - 1] as int));
                if T::precedes(items[j].key(), last) {
                    T::precedes_transitive(items[j].key(), last, key);
                }
            }
        } else if p > i {
            assert(goes_first(items, order[i] as int, order[p] as int));
        }
    }
}

/// Positions of items whose keys are all keys of `items` in ascending order, each once, and for each
/// item the place of its key among them.
pub fn rank_items<T: Ranked>(items: &[T]) -> (r: (Vec<usize>, Vec<usize>))
    ensures
        forall|k: int| 0 <= k < r.0@.len() ==> (#[trigger] r.0@[k]) < items@.len(),
        keys_at(items@, r.0@) == sorted_form::<T>(keys(items@)),
        ascending::<T>(keys_at(items@, r.0@)),
        are_ranks(items@, r.0@, r.1@),
        forall|k: int| 0 <= k < r.0@.len() ==> is_first(items@, (#[trigger] r.0@[k]) as int),
{
    let order: Vec<usize> = order_of(items);
    let mut out: Vec<usize> = Vec::new();
    let mut ranks: Vec<usize> = Vec::with_capacity(items.len());
    let mut i: usize = 0;
    while i < items.len()
        invariant
            i <= items@.len(),
            ranks@.len() == i,
        decreases items@.len() - i,
    {
        ranks.push(0);
        i = i + 1;
    }
    i = 0;
    let ghost mut all: Seq<T::Key> = Seq::empty();
    assert(same_keys(keys_at(items@, out@), all));
    while i < order.len()
        invariant
            i <= order@.len(),
            ranks@.len() == items@.len(),
            is_order(items@, order@, 0, items@.len() as int),
            forall|k: int| 0 <= k < out@.len() ==> (#[trigger] out@[k]) < items@.len(),
            forall|k: int| 0 <= k < out@.len() ==> is_first(items@, (#[trigger] out@[k]) as int),
            all == keys_at(items@, order@).subrange(0, i as int),
            ascending::<T>(keys_at(items@, out@)),
            same_keys(keys_at(items@, out@), all),
            all.len() == 0 <==> out@.len() == 0,
            all.len() > 0 ==> keys_at(items@, out@).last() == all.last(),
            forall|a: int|
                0 <= a < i ==> ranks@[(#[trigger] order@[a]) as int] < out@.len()
                    && items@[out@[ranks@[order@[a] as int] as int] as int].key()
                    == items@[order@[a] as int].key(),
        decreases order@.len() - i,
    {
        let next: usize = order[i];
        let ghost key = items@[next as int].key();
        let ghost before = out@;
        let ghost ranks_before = ranks@;
        proof {
            if i > 0 {
                assert(goes_first(items@, order@[i - 1] as int, order@[i as int] as int));
                T::precedes_irreflexive(key);
            }
            lemma_distinct_step::<T>(keys_at(items@, out@), all, key);
        }
        let fresh: bool = if out.len() == 0 {
            true
        } else {
            items[out[out.len() - 1]].less(&items[next])
        };
        if fresh {
            proof {
                assert(items.len() <= usize::MAX);
                lemma_fresh_is_first(items@, order@, i as int);
            }
            out.push(next);
            assert(keys_at(items@, out@) =~= keys_at(items@, before).push(key));
        }
        ranks.set(next, out.len() - 1);
        proof {
            assert forall|a: int| 0 <= a < i implies ranks@[(#[trigger] order@[a]) as int]
                < out@.len() && items@[out@[ranks@[order@[a] as int] as int] as int].key()
                == items@[order@[a] as int].key() by {
                assert(goes_first(items@, order@[a] as int, order@[i as int] as int));
                T::precedes_irreflexive(key);
                assert(order@[a] != next);
                assert(ranks@[order@[a] as int] == ranks_before[order@[a] as int]);
                let r = ranks@[order@[a] as int] as int;
                assert(out@[r] == before[r]);
            }
        }
        i = i + 1;
        proof {
            all = all.push(key);
            assert(all =~= keys_at(items@, order@).subrange(0, i as int));
        }
    }
    proof {
        assert(items.len() <= usize::MAX);
        lemma_order_keys(items@, order@);
        assert(all =~= keys_at(items@, order@));
        assert forall|k: T::Key| #[trigger] keys_at(items@, out@).contains(k) <==> keys(
            items@,
        ).contains(k) by {
            assert(all.contains(k) <==> keys(items@).contains(k));
        }
        lemma_sorted_form::<T>(keys_at(items@, out@), keys(items@));
        assert forall|i: int| 0 <= i < items@.len() implies (#[trigger] ranks@[i]) < out@.len()
            && items@[out@[ranks@[i] as int] as int].key() == items@[i].key() by {
            assert(order@.contains(i as usize));
            let a = choose|a: int| 0 <= a < order@.len() && order@[a] == i as usize;
            assert(ranks@[order@[a] as int] < out@.len());
        }
    }
    (out, ranks)
}

/// Positions of items whose keys are all keys of `items` in ascending order, each once.
pub fn distinct_order<T: Ranked>(items: &[T]) -> (out: Vec<usize>)
    ensures
        forall|k: int| 0 <= k < out@.len() ==> (#[trigger] out@[k]) < items@.len(),
        keys_at(items@, out@) == sorted_form::<T>(keys(items@)),
        forall|k: int| 0 <= k < out@.len() ==> is_first(items@, (#[trigger] out@[k]) as int),
{
    let (out, _ranks) = rank_items(items);
    out
}

/// Whether `a` comes before `b` in the order in which text is compared byte by byte.
pub open spec fn bytes_lt(a: Seq<u8>, b: Seq<u8>) -> bool
    decreases a.len(),
{
    if b.len() == 0 {
        false
    } else if a.len() == 0 {
        true
    } else if a[0] != b[0] {
        a[0] < b[0]
    } else {
        bytes_lt(a.drop_first(), b.drop_first())
    }
}

pub proof fn lemma_bytes_lt_irreflexive(a: Seq<u8>)
    ensures
        !bytes_lt(a, a),
    decreases a.len(),
{
    if a.len() > 0 {
        lemma_bytes_lt_irreflexive(a.drop_first());
    }
}

pub proof fn lemma_bytes_lt_transitive(a: Seq<u8>, b: Seq<u8>, c: Seq<u8>)
    requires
        bytes_lt(a, b),
        bytes_lt(b, c),
    ensures
        bytes_lt(a, c),
    decreases a.len(),
{
    if a.len() > 0 && a[0] == b[0] && b[0] == c[0] {
        lemma_bytes_lt_transitive(a.drop_first(), b.drop_first(), c.drop_first());
    }
}

pub proof fn lemma_bytes_lt_total(a: Seq<u8>, b: Seq<u8>)
    ensures
        a == b || bytes_lt(a, b) || bytes_lt(b, a),
    decreases a.len(),
{
    if a.len() > 0 && b.len() > 0 && a[0] == b[0] {
        lemma_bytes_lt_total(a.drop_first(), b.drop_first());
        if a.drop_first() == b.drop_first() {
            assert(a =~= seq![a[0]] + a.drop_first());
            assert(b =~= seq![b[0]] + b.drop_first());
        }
    } else if a.len() == 0 && b.len() == 0 {
        assert(a =~= b);
    }
}

/// Whether `a` comes before `b`, byte by byte.
pub fn bytes_less(a: &[u8], b: &[u8]) -> (r: bool)
    ensures
        r == bytes_lt(a@, b@),
{
    let mut i: usize = 0;
    assert(a@.subrange(0, a@.len() as int) =~= a@);
    assert(b@.subrange(0, b@.len() as int) =~= b@);
    while i < a.len() && i < b.len()
        invariant
            i <= a@.len(),
            i <= b@.len(),
            bytes_lt(a@.subrange(i as int, a@.len() as int), b@.subrange(i as int, b@.len() as int))
                == bytes_lt(a@, b@),
        decreases a@.len() - i,
    {
        let ghost sa = a@.subrange(i as int, a@.len() as int);
        let ghost sb = b@.subrange(i as int, b@.len() as int);
        assert(sa[0] == a@[i as int] && sb[0] == b@[i as int]);
        assert(sa.drop_first() =~= a@.subrange(i + 1, a@.len() as int));
        assert(sb.drop_first() =~= b@.subrange(i + 1, b@.len() as int));
        if a[i] != b[i] {
            return a[i] < b[i];
        }
        i = i + 1;
    }
    i < b.len()
}

impl Ranked for Vec<u8> {
    type Key = Seq<u8>;

    open spec fn key(&self) -> Seq<u8> {
        self@
    }

    open spec fn precedes(a: Seq<u8>, b: Seq<u8>) -> bool {
        bytes_lt(a, b)
    }

    proof fn precedes_irreflexive(a: Seq<u8>) {
        lemma_bytes_lt_irreflexive(a);
    }

    proof fn precedes_transitive(a: Seq<u8>, b: Seq<u8>, c: Seq<u8>) {
        lemma_bytes_lt_transitive(a, b, c);
    }

    proof fn precedes_total(a: Seq<u8>, b: Seq<u8>) {
        lemma_bytes_lt_total(a, b);
    }

    fn less(&self, other: &Self) -> bool {
        bytes_less(self, other)
    }
}

impl Ranked for String {
    type Key = Seq<u8>;

    open spec fn key(&self) -> Seq<u8> {
        encode_utf8(self@)
    }

    open spec fn precedes(a: Seq<u8>, b: Seq<u8>) -> bool {
        bytes_lt(a, b)
    }

    proof fn precedes_irreflexive(a: Seq<u8>) {
        lemma_bytes_lt_irreflexive(a);
    }

    proof fn precedes_transitive(a: Seq<u8>, b: Seq<u8>, c: Seq<u8>) {
        lemma_bytes_lt_transitive(a, b, c);
    }

    proof fn precedes_total(a: Seq<u8>, b: Seq<u8>) {
        lemma_bytes_lt_total(a, b);
    }

    fn less(&self, other: &Self) -> bool {
        bytes_less(self.as_str().as_bytes(), other.as_str().as_bytes())
    }
}

impl Ranked for u32 {
    type Key = u32;

    open spec fn key(&self) -> u32 {
        *self
    }

    open spec fn precedes(a: u32, b: u32) -> bool {
        a < b
    }

    proof fn precedes_irreflexive(a: u32) {
    }

    proof fn precedes_transitive(a: u32, b: u32, c: u32) {
    }

    proof fn precedes_total(a: u32, b: u32) {
    }

    fn less(&self, other: &Self) -> bool {
        *self < *other
    }
}

impl Ranked for u64 {
    type Key = u64;

    open spec fn key(&self) -> u64 {
        *self
    }

    open spec fn precedes(a: u64, b: u64) -> bool {
        a < b
    }

    proof fn precedes_irreflexive(a: u64) {
    }

    proof fn precedes_transitive(a: u64, b: u64, c: u64) {
    }

    proof fn precedes_total(a: u64, b: u64) {
    }

    fn less(&self, other: &Self) -> bool {
        *self < *other
    }
}

/// The byte strings in ascending order, each once.
pub fn sorted_distinct(items: &[Vec<u8>]) -> (r: Vec<Vec<u8>>)
    ensures
        byte_rows(r@) == sorted_form::<Vec<u8>>(byte_rows(items@)),
        ascending::<Vec<u8>>(byte_rows(r@)),
        same_keys(byte_rows(r@), byte_rows(items@)),
{
    let places: Vec<usize> = distinct_order(items);
    let mut r: Vec<Vec<u8>> = Vec::new();
    let mut i: usize = 0;
    while i < places.len()
        invariant
            i <= places@.len(),
            r@.len() == i,
            forall|k: int| 0 <= k < places@.len() ==> (#[trigger] places@[k]) < items@.len(),
            forall|k: int| 0 <= k < i ==> (#[trigger] r@[k])@ == items@[places@[k] as int]@,
        decreases places@.len() - i,
    {
        r.push(copy_bytes(&items[places[i]]));
        i = i + 1;
    }
    proof {
        assert(keys(items@) =~= byte_rows(items@));
        assert(keys_at(items@, places@) =~= byte_rows(r@));
        lemma_sorted_form_exists::<Vec<u8>>(byte_rows(items@));
    }
    r
}

/// Whether a name is among names in ascending order.
pub fn find_sorted(names: &[Vec<u8>], name: &[u8]) -> (r: bool)
    requires
        ascending::<Vec<u8>>(byte_rows(names@)),
    ensures
        r == byte_rows(names@).contains(name@),
{
    let ghost rows = byte_rows(names@);
    let mut lo: usize = 0;
    let mut hi: usize = names.len();
    while lo < hi
        invariant
            lo <= hi <= names@.len(),
            rows == byte_rows(names@),
            ascending::<Vec<u8>>(rows),
            forall|i: int| 0 <= i < lo ==> bytes_lt(#[trigger] rows[i], name@),
            forall|i: int| hi <= i < rows.len() ==> bytes_lt(name@, #[trigger] rows[i]),
        decreases hi - lo,
    {
        let mid: usize = lo + (hi - lo) / 2;
        assert(rows[mid as int] == names@[mid as int]@);
        if bytes_less(&names[mid], name) {
            assert forall|i: int| 0 <= i < mid + 1 implies bytes_lt(#[trigger] rows[i], name@) by {
                if i < mid {
                    assert(<Vec<u8> as Ranked>::precedes(rows[i], rows[mid as int]));
                    lemma_bytes_lt_transitive(rows[i], rows[mid as int], name@);
                }
            }
            lo = mid + 1;
        } else if bytes_less(name, &names[mid]) {
            assert forall|i: int| mid <= i < rows.len() implies bytes_lt(
                name@,
                #[trigger] rows[i],
            ) by {
                if i > mid {
                    assert(<Vec<u8> as Ranked>::precedes(rows[mid as int], rows[i]));
                    lemma_bytes_lt_transitive(name@, rows[mid as int], rows[i]);
                }
            }
            hi = mid;
        } else {
            proof {
                lemma_bytes_lt_total(rows[mid as int], name@);
            }
            assert(rows[mid as int] == name@);
            return true;
        }
    }
    assert forall|i: int| 0 <= i < rows.len() implies rows[i] != name@ by {
        lemma_bytes_lt_irreflexive(name@);
    }
    false
}

} // verus!
