//! Stable sorting by an integer key: ties keep their order.

use vstd::prelude::*;

verus! {

/// Something placed on a timeline, ordered by `order_key`.
pub trait TickOrdered: Copy {
    spec fn order_key(&self) -> int;

    fn key_le(&self, other: &Self) -> (b: bool)
        ensures
            b == (self.order_key() <= other.order_key()),
    ;
}

/// The elements of `s` whose key is `v`, in their order in `s`.
pub open spec fn keyed<T: TickOrdered>(s: Seq<T>, v: int) -> Seq<T>
    decreases s.len(),
{
    if s.len() == 0 {
        Seq::empty()
    } else {
        let r = keyed(s.drop_last(), v);
        if s.last().order_key() == v {
            r.push(s.last())
        } else {
            r
        }
    }
}

/// Keys never go down along `s`.
pub open spec fn sorted_by_key<T: TickOrdered>(s: Seq<T>) -> bool {
    forall|i: int, j: int| 0 <= i < j < s.len() ==> s[i].order_key() <= s[j].order_key()
}

/// `out` is `inp` ordered by key, with equal keys in their order in `inp`.
pub open spec fn is_stable_sort_of<T: TickOrdered>(out: Seq<T>, inp: Seq<T>) -> bool {
    &&& sorted_by_key(out)
    &&& forall|v: int| #[trigger] keyed(out, v) == keyed(inp, v)
}

/// The stable sort of `s` (it exists and is unique, see
/// [`lemma_stable_sort_unique`] and [`stable_sort`]).
pub open spec fn stable_sorted<T: TickOrdered>(s: Seq<T>) -> Seq<T> {
    choose|o: Seq<T>| is_stable_sort_of(o, s)
}

/// Picking by key distributes over concatenation.
pub proof fn lemma_keyed_add<T: TickOrdered>(a: Seq<T>, b: Seq<T>, v: int)
    ensures
        keyed(a + b, v) == keyed(a, v) + keyed(b, v),
    decreases b.len(),
{
    if b.len() == 0 {
        assert(a + b =~= a);
        assert(keyed(a, v) + keyed(b, v) =~= keyed(a, v));
    } else {
        assert((a + b).drop_last() =~= a + b.drop_last());
        lemma_keyed_add(a, b.drop_last(), v);
        assert((a + b).last() == b.last());
        if b.last().order_key() == v {
            assert(keyed(a, v) + keyed(b.drop_last(), v).push(b.last()) =~= (keyed(a, v) + keyed(b.drop_last(), v)).push(b.last()));
        }
    }
}

/// Picking by key from a sequence with one more element.
pub proof fn lemma_keyed_push<T: TickOrdered>(s: Seq<T>, x: T, v: int)
    ensures
        keyed(s.push(x), v) == if x.order_key() == v { keyed(s, v).push(x) } else { keyed(s, v) },
{
    assert(s.push(x).drop_last() =~= s);
}

/// Nothing is picked for a key no element has.
pub proof fn lemma_keyed_none<T: TickOrdered>(s: Seq<T>, v: int)
    requires
        forall|i: int| 0 <= i < s.len() ==> s[i].order_key() != v,
    ensures
        keyed(s, v) == Seq::<T>::empty(),
    decreases s.len(),
{
    if s.len() > 0 {
        lemma_keyed_none(s.drop_last(), v);
    }
}

/// Every element picked by `keyed` comes from the sequence, with that key.
pub proof fn lemma_keyed_members<T: TickOrdered>(s: Seq<T>, v: int)
    ensures
        forall|k: int| 0 <= k < keyed(s, v).len() ==> keyed(s, v)[k].order_key() == v && s.contains(#[trigger] keyed(s, v)[k]),
        keyed(s, v).len() <= s.len(),
    decreases s.len(),
{
    if s.len() > 0 {
        lemma_keyed_members(s.drop_last(), v);
        let r = keyed(s.drop_last(), v);
        assert forall|k: int| 0 <= k < keyed(s, v).len() implies keyed(s, v)[k].order_key() == v && s.contains(#[trigger] keyed(s, v)[k]) by {
            if k < r.len() {
                assert(s.drop_last().contains(r[k]));
                let m = choose|m: int| 0 <= m < s.drop_last().len() && s.drop_last()[m] == r[k];
                assert(s[m] == r[k]);
            } else {
                assert(s[s.len() - 1] == s.last());
            }
        }
    }
}

proof fn lemma_keyed_last<T: TickOrdered>(s: Seq<T>)
    requires
        s.len() > 0,
    ensures
        keyed(s, s.last().order_key()).len() > 0,
        keyed(s, s.last().order_key()).last() == s.last(),
{
}

/// An element is among those `keyed` picks for its own key.
pub proof fn lemma_keyed_contains<T: TickOrdered>(s: Seq<T>, k: int)
    requires
        0 <= k < s.len(),
    ensures
        keyed(s, s[k].order_key()).contains(s[k]),
    decreases s.len(),
{
    if k == s.len() - 1 {
        let r = keyed(s.drop_last(), s[k].order_key());
        assert(keyed(s, s[k].order_key()) == r.push(s.last()));
        assert(r.push(s.last())[r.len() as int] == s[k]);
    } else {
        lemma_keyed_contains(s.drop_last(), k);
        let r = keyed(s.drop_last(), s[k].order_key());
        assert(s.drop_last()[k] == s[k]);
        let m = choose|m: int| 0 <= m < r.len() && r[m] == s[k];
        if s.last().order_key() == s[k].order_key() {
            assert(r.push(s.last())[m] == s[k]);
        }
    }
}

/// The elements of a stable sort come from the sorted sequence.
pub proof fn lemma_stable_sort_members<T: TickOrdered>(o: Seq<T>, s: Seq<T>)
    requires
        is_stable_sort_of(o, s),
    ensures
        forall|k: int| 0 <= k < o.len() ==> s.contains(#[trigger] o[k]),
{
    assert forall|k: int| 0 <= k < o.len() implies s.contains(#[trigger] o[k]) by {
        let v = o[k].order_key();
        lemma_keyed_contains(o, k);
        assert(keyed(o, v) == keyed(s, v));
        lemma_keyed_members(s, v);
        let m = choose|m: int| 0 <= m < keyed(o, v).len() && keyed(o, v)[m] == o[k];
        assert(s.contains(keyed(s, v)[m]));
    }
}

/// There is only one stable sort of a sequence.
pub proof fn lemma_stable_sort_unique<T: TickOrdered>(o1: Seq<T>, o2: Seq<T>, s: Seq<T>)
    requires
        is_stable_sort_of(o1, s),
        is_stable_sort_of(o2, s),
    ensures
        o1 == o2,
{
    lemma_same_keyed_sorted_equal(o1, o2);
}

proof fn lemma_same_keyed_sorted_equal<T: TickOrdered>(o1: Seq<T>, o2: Seq<T>)
    requires
        sorted_by_key(o1),
        sorted_by_key(o2),
        forall|v: int| #[trigger] keyed(o1, v) == keyed(o2, v),
    ensures
        o1 == o2,
    decreases o1.len() + o2.len(),
{
    if o1.len() == 0 && o2.len() == 0 {
        assert(o1 =~= o2);
    } else if o1.len() == 0 {
        lemma_keyed_last(o2);
        assert(keyed(o1, o2.last().order_key()) == keyed(o2, o2.last().order_key()));
    } else if o2.len() == 0 {
        lemma_keyed_last(o1);
        assert(keyed(o1, o1.last().order_key()) == keyed(o2, o1.last().order_key()));
    } else {
        let k1 = o1.last().order_key();
        let k2 = o2.last().order_key();
        lemma_keyed_last(o1);
        lemma_keyed_last(o2);
        lemma_keyed_members(o1, k2);
        lemma_keyed_members(o2, k1);
        if k1 < k2 {
            assert(keyed(o1, k2) == keyed(o2, k2));
            let x = keyed(o1, k2)[0];
            assert(o1.contains(x));
            let m = choose|m: int| 0 <= m < o1.len() && o1[m] == x;
            assert(o1[m].order_key() <= o1[o1.len() - 1].order_key());
            assert(false);
        } else if k2 < k1 {
            assert(keyed(o1, k1) == keyed(o2, k1));
            let x = keyed(o2, k1)[0];
            assert(o2.contains(x));
            let m = choose|m: int| 0 <= m < o2.len() && o2[m] == x;
            assert(o2[m].order_key() <= o2[o2.len() - 1].order_key());
            assert(false);
        }
        assert(keyed(o1, k1) == keyed(o2, k1));
        assert(o1.last() == o2.last());
        let a = o1.drop_last();
        let b = o2.drop_last();
        assert forall|v: int| #[trigger] keyed(a, v) == keyed(b, v) by {
            assert(keyed(o1, v) == keyed(o2, v));
            if v == k1 {
                assert(keyed(a, v) =~= keyed(o1, v).drop_last());
                assert(keyed(b, v) =~= keyed(o2, v).drop_last());
            }
        }
        lemma_same_keyed_sorted_equal(a, b);
        assert(o1 =~= a.push(o1.last()));
        assert(o2 =~= b.push(o2.last()));
    }
}

/// Merges two sorted runs; on equal keys the elements of `a` come first.
fn merge<T: TickOrdered>(a: &Vec<T>, b: &Vec<T>) -> (out: Vec<T>)
    requires
        sorted_by_key(a@),
        sorted_by_key(b@),
    ensures
        sorted_by_key(out@),
        forall|v: int| #[trigger] keyed(out@, v) == keyed(a@, v) + keyed(b@, v),
        out@.len() == a@.len() + b@.len(),
{
    let mut out: Vec<T> = Vec::new();
    let mut i: usize = 0;
    let mut j: usize = 0;
    while i < a.len() || j < b.len()
        invariant
            sorted_by_key(a@),
            sorted_by_key(b@),
            i <= a.len(),
            j <= b.len(),
            out@.len() == i + j,
            sorted_by_key(out@),
            forall|v: int| #[trigger] keyed(out@, v) == keyed(a@.take(i as int), v) + keyed(b@.take(j as int), v),
            out@.len() > 0 && i < a.len() ==> out@.last().order_key() <= a@[i as int].order_key(),
            out@.len() > 0 && j < b.len() ==> out@.last().order_key() <= b@[j as int].order_key(),
            i < a.len() ==> forall|k: int| 0 <= k < j ==> b@[k].order_key() < a@[i as int].order_key(),
            j < b.len() ==> forall|k: int| 0 <= k < i ==> a@[k].order_key() <= b@[j as int].order_key(),
        decreases a.len() + b.len() - i - j,
    {
        let ghost out0 = out@;
        if j >= b.len() || (i < a.len() && a[i].key_le(&b[j])) {
            let x: T = a[i];
            out.push(x);
            proof {
                assert forall|v: int| #[trigger] keyed(out@, v) == keyed(a@.take(i + 1), v) + keyed(b@.take(j as int), v) by {
                    lemma_keyed_push(out0, x, v);
                    assert(a@.take(i + 1) =~= a@.take(i as int).push(x));
                    lemma_keyed_push(a@.take(i as int), x, v);
                    if x.order_key() == v {
                        lemma_keyed_none(b@.take(j as int), v);
                        assert(keyed(a@.take(i as int), v) + Seq::<T>::empty() =~= keyed(a@.take(i as int), v));
                        assert(keyed(a@.take(i as int), v).push(x) + Seq::<T>::empty() =~= keyed(a@.take(i as int), v).push(x));
                    }
                }
                assert forall|p: int, q: int| 0 <= p < q < out@.len() implies out@[p].order_key() <= out@[q].order_key() by {
                    if q == out@.len() - 1 && p < out0.len() {
                        assert(out0[p].order_key() <= out0.last().order_key());
                    }
                }
            }
            i += 1;
        } else {
            let x: T = b[j];
            out.push(x);
            proof {
                assert forall|v: int| #[trigger] keyed(out@, v) == keyed(a@.take(i as int), v) + keyed(b@.take(j + 1), v) by {
                    lemma_keyed_push(out0, x, v);
                    assert(b@.take(j + 1) =~= b@.take(j as int).push(x));
                    lemma_keyed_push(b@.take(j as int), x, v);
                    if x.order_key() == v {
                        assert(keyed(a@.take(i as int), v) + keyed(b@.take(j as int), v).push(x) =~= (keyed(a@.take(i as int), v) + keyed(b@.take(j as int), v)).push(x));
                    }
                }
                assert forall|p: int, q: int| 0 <= p < q < out@.len() implies out@[p].order_key() <= out@[q].order_key() by {
                    if q == out@.len() - 1 && p < out0.len() {
                        assert(out0[p].order_key() <= out0.last().order_key());
                    }
                }
            }
            j += 1;
        }
    }
    proof {
        assert(a@.take(i as int) =~= a@);
        assert(b@.take(j as int) =~= b@);
    }
    out
}

fn sort_range<T: TickOrdered>(v: &Vec<T>, lo: usize, hi: usize) -> (out: Vec<T>)
    requires
        lo <= hi <= v.len(),
    ensures
        is_stable_sort_of(out@, v@.subrange(lo as int, hi as int)),
        out@.len() == hi - lo,
    decreases hi - lo,
{
    if hi - lo <= 1 {
        let mut out: Vec<T> = Vec::new();
        if hi > lo {
            out.push(v[lo]);
        }
        proof {
            assert(out@ =~= v@.subrange(lo as int, hi as int));
        }
        return out;
    }
    let mid: usize = lo + (hi - lo) / 2;
    let left: Vec<T> = sort_range(v, lo, mid);
    let right: Vec<T> = sort_range(v, mid, hi);
    let out: Vec<T> = merge(&left, &right);
    proof {
        assert forall|k: int| #[trigger] keyed(out@, k) == keyed(v@.subrange(lo as int, hi as int), k) by {
            assert(v@.subrange(lo as int, hi as int) =~= v@.subrange(lo as int, mid as int) + v@.subrange(mid as int, hi as int));
            lemma_keyed_add(v@.subrange(lo as int, mid as int), v@.subrange(mid as int, hi as int), k);
        }
    }
    out
}

/// `v` ordered by key; equal keys keep their order.
pub fn stable_sort<T: TickOrdered>(v: &Vec<T>) -> (out: Vec<T>)
    ensures
        is_stable_sort_of(out@, v@),
        out@ == stable_sorted(v@),
        out@.len() == v@.len(),
        forall|k: int| 0 <= k < out@.len() ==> v@.contains(#[trigger] out@[k]),
{
    let out: Vec<T> = sort_range(v, 0, v.len());
    proof {
        assert(v@.subrange(0, v@.len() as int) =~= v@);
        assert(is_stable_sort_of(out@, v@));
        let c = stable_sorted(v@);
        assert(is_stable_sort_of(c, v@));
        lemma_stable_sort_unique(out@, c, v@);
        lemma_stable_sort_members(out@, v@);
    }
    out
}


/// How many leading elements of the sorted `o` have a key up to `k`.
spec fn count_up_to<T: TickOrdered>(o: Seq<T>, k: int) -> nat
    decreases o.len(),
{
    if o.len() == 0 {
        0
    } else if o.last().order_key() <= k {
        o.len()
    } else {
        count_up_to(o.drop_last(), k)
    }
}

proof fn lemma_count_up_to<T: TickOrdered>(o: Seq<T>, k: int)
    requires
        sorted_by_key(o),
    ensures
        count_up_to(o, k) <= o.len(),
        forall|i: int| 0 <= i < count_up_to(o, k) ==> #[trigger] o[i].order_key() <= k,
        forall|i: int| count_up_to(o, k) <= i < o.len() ==> #[trigger] o[i].order_key() > k,
    decreases o.len(),
{
    if o.len() > 0 && o.last().order_key() > k {
        lemma_count_up_to(o.drop_last(), k);
        assert forall|i: int| 0 <= i < count_up_to(o, k) implies #[trigger] o[i].order_key() <= k by {
            assert(o[i] == o.drop_last()[i]);
        }
        assert forall|i: int| count_up_to(o, k) <= i < o.len() implies #[trigger] o[i].order_key() > k by {
            if i < o.len() - 1 {
                assert(o[i] == o.drop_last()[i]);
            }
        }
    }
}

/// `x` put into the sorted `o` after every element whose key is not larger.
spec fn insert_by_key<T: TickOrdered>(o: Seq<T>, x: T) -> Seq<T> {
    let p = count_up_to(o, x.order_key()) as int;
    o.take(p) + seq![x] + o.skip(p)
}

/// Insertion sort, as a specification.
spec fn insertion_sorted<T: TickOrdered>(s: Seq<T>) -> Seq<T>
    decreases s.len(),
{
    if s.len() == 0 {
        s
    } else {
        insert_by_key(insertion_sorted(s.drop_last()), s.last())
    }
}

proof fn lemma_insertion_sorted<T: TickOrdered>(s: Seq<T>)
    ensures
        is_stable_sort_of(insertion_sorted(s), s),
        insertion_sorted(s).len() == s.len(),
    decreases s.len(),
{
    if s.len() > 0 {
        let x = s.last();
        let kx = x.order_key();
        let o = insertion_sorted(s.drop_last());
        lemma_insertion_sorted(s.drop_last());
        lemma_count_up_to(o, kx);
        let p = count_up_to(o, kx) as int;
        let a = o.take(p);
        let b = o.skip(p);
        let r = insert_by_key(o, x);
        assert(o =~= a + b);
        assert forall|v: int| #[trigger] keyed(r, v) == keyed(s, v) by {
            lemma_keyed_add(a + seq![x], b, v);
            lemma_keyed_add(a, seq![x], v);
            lemma_keyed_add(a, b, v);
            lemma_keyed_push(Seq::<T>::empty(), x, v);
            assert(seq![x] =~= Seq::<T>::empty().push(x));
            lemma_keyed_none(Seq::<T>::empty(), v);
            lemma_keyed_push(s.drop_last(), x, v);
            assert(s =~= s.drop_last().push(x));
            assert(keyed(o, v) == keyed(s.drop_last(), v));
            if v == kx {
                assert forall|i: int| 0 <= i < b.len() implies b[i].order_key() != v by {
                    assert(b[i] == o[p + i]);
                }
                lemma_keyed_none(b, v);
                assert(keyed(r, v) =~= keyed(s, v));
            } else {
                assert(keyed(r, v) =~= keyed(s, v));
            }
        }
        assert(sorted_by_key(r)) by {
            assert forall|i: int, j: int| 0 <= i < j < r.len() implies r[i].order_key() <= r[j].order_key() by {
                if j < p {
                    assert(r[i] == o[i] && r[j] == o[j]);
                } else if j == p {
                    assert(r[j] == x);
                    assert(r[i] == o[i]);
                } else if i < p {
                    assert(r[i] == o[i] && r[j] == o[j - 1]);
                } else if i == p {
                    assert(r[i] == x && r[j] == o[j - 1]);
                } else {
                    assert(r[i] == o[i - 1] && r[j] == o[j - 1]);
                }
            }
        }
    }
}

/// A stable sort keeps every element: it is as long as what it sorts.
pub proof fn lemma_stable_sorted_len<T: TickOrdered>(s: Seq<T>)
    ensures
        is_stable_sort_of(stable_sorted(s), s),
        stable_sorted(s).len() == s.len(),
{
    lemma_insertion_sorted(s);
    let o = stable_sorted(s);
    lemma_stable_sort_unique(o, insertion_sorted(s), s);
}

} // verus!
