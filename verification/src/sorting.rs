//! Sorting.
use crate::order::{all_sound, keys, rank, Order, Ordered, Total};
use vstd::prelude::*;

verus! {

/// No value of the list is above a later one.
pub open spec fn nondecreasing<K: Total>(s: Seq<K>) -> bool {
    forall|i: int, j: int|
        0 <= i < j < s.len() ==> (#[trigger] s[i]).order(#[trigger] s[j]) != Order::Greater
}

/// The values of a list in order, equal ones as often as they are there.
pub open spec fn sorted_list<K: Total>(items: Seq<K>) -> Seq<K>
    decreases items.len(),
{
    if items.len() == 0 {
        Seq::empty()
    } else {
        let s = sorted_list(items.drop_last());
        s.insert(rank(s, items.last()), items.last())
    }
}

/// In a list in order everything before the rank of a value is below it and nothing from
/// there on is.
pub proof fn lemma_rank_weak<K: Total>(s: Seq<K>, x: K)
    requires
        nondecreasing(s),
    ensures
        0 <= rank(s, x) <= s.len(),
        forall|i: int| 0 <= i < rank(s, x) ==> (#[trigger] s[i]).order(x) == Order::Less,
        forall|i: int| rank(s, x) <= i < s.len() ==> (#[trigger] s[i]).order(x) != Order::Less,
    decreases s.len(),
{
    if s.len() > 0 {
        let t = s.drop_last();
        assert(nondecreasing(t)) by {
            assert forall|i: int, j: int| 0 <= i < j < t.len() implies (#[trigger] t[i]).order(
                #[trigger] t[j],
            ) != Order::Greater by {
                assert(s[i].order(s[j]) != Order::Greater);
            }
        }
        lemma_rank_weak(t, x);
        let last = s.last();
        assert forall|i: int| 0 <= i < t.len() implies t[i] == s[i] by {}
        if last.order(x) == Order::Less {
            assert forall|i: int| 0 <= i < t.len() implies (#[trigger] s[i]).order(x)
                == Order::Less by {
                assert(s[i].order(s[s.len() - 1]) != Order::Greater);
                K::order_coherent(s[i], last, x);
            }
            if rank(t, x) < t.len() {
                assert(t[rank(t, x)].order(x) != Order::Less);
                assert(s[rank(t, x)].order(x) == Order::Less);
            }
        } else {
            assert forall|i: int| 0 <= i < rank(s, x) implies (#[trigger] s[i]).order(x)
                == Order::Less by {
                assert(t[i].order(x) == Order::Less);
            }
            assert forall|i: int| rank(s, x) <= i < s.len() implies (#[trigger] s[i]).order(x)
                != Order::Less by {
                if i < t.len() {
                    assert(t[i].order(x) != Order::Less);
                }
            }
        }
    }
}

/// Sorting puts the values in order and keeps each as often as it is there.
pub proof fn lemma_sorted_list<K: Total>(items: Seq<K>)
    ensures
        nondecreasing(sorted_list(items)),
        sorted_list(items).len() == items.len(),
        sorted_list(items).to_multiset() == items.to_multiset(),
    decreases items.len(),
{
    broadcast use vstd::seq_lib::group_to_multiset_ensures;

    if items.len() > 0 {
        let t = items.drop_last();
        let x = items.last();
        let s = sorted_list(t);
        lemma_sorted_list(t);
        lemma_rank_weak(s, x);
        let p = rank(s, x);
        let n = sorted_list(items);
        assert forall|i: int, j: int| 0 <= i < j < n.len() implies (#[trigger] n[i]).order(
            #[trigger] n[j],
        ) != Order::Greater by {
            if i != p && j != p {
                let a = if i < p { i } else { i - 1 };
                let b = if j < p { j } else { j - 1 };
                assert(n[i] == s[a] && n[j] == s[b]);
            } else if j == p {
                assert(n[i] == s[i]);
            } else {
                assert(n[j] == s[j - 1]);
                K::order_flips(s[j - 1], x);
            }
        }
        assert(n.remove(p) =~= s);
        assert(n[p] == x);
        assert(items =~= t.push(x));
        assert(n.to_multiset() =~= s.to_multiset().insert(x)) by {
            n.to_multiset_ensures();
            assert(n.to_multiset().contains(x)) by {
                assert(n.contains(x));
            }
        }
    } else {
        assert(sorted_list(items) =~= items);
    }
}

proof fn lemma_below_last<K: Total>(s: Seq<K>, x: K)
    requires
        nondecreasing(s),
        s.contains(x),
    ensures
        x.order(s.last()) != Order::Greater,
{
    let i = choose|i: int| 0 <= i < s.len() && s[i] == x;
    if i < s.len() - 1 {
        assert(s[i].order(s[s.len() - 1]) != Order::Greater);
    } else {
        K::order_flips(x, x);
    }
}

/// Two lists in order that hold the same values are the same, if no two different values
/// compare as equal.
pub proof fn lemma_nondecreasing_unique<K: Total>(a: Seq<K>, b: Seq<K>)
    requires
        nondecreasing(a),
        nondecreasing(b),
        a.to_multiset() == b.to_multiset(),
        forall|x: K, y: K| #[trigger] x.order(y) == Order::Equal ==> x == y,
    ensures
        a == b,
    decreases a.len(),
{
    broadcast use vstd::seq_lib::group_to_multiset_ensures;

    a.to_multiset_ensures();
    b.to_multiset_ensures();
    assert(a.len() == b.len());
    if a.len() == 0 {
        assert(a =~= b);
    } else {
        let x = a.last();
        let y = b.last();
        assert(a.contains(x));
        assert(a.to_multiset().contains(x));
        assert(b.contains(x));
        assert(b.contains(y));
        assert(b.to_multiset().contains(y));
        assert(a.contains(y));
        lemma_below_last(b, x);
        lemma_below_last(a, y);
        K::order_flips(x, y);
        assert(x == y);
        let s = a.drop_last();
        let t = b.drop_last();
        assert(a.remove(a.len() - 1) =~= s);
        assert(b.remove(b.len() - 1) =~= t);
        assert forall|i: int, j: int| 0 <= i < j < s.len() implies (#[trigger] s[i]).order(
            #[trigger] s[j],
        ) != Order::Greater by {
            assert(a[i].order(a[j]) != Order::Greater);
        }
        assert forall|i: int, j: int| 0 <= i < j < t.len() implies (#[trigger] t[i]).order(
            #[trigger] t[j],
        ) != Order::Greater by {
            assert(b[i].order(b[j]) != Order::Greater);
        }
        lemma_nondecreasing_unique(s, t);
        assert(a =~= s.push(x));
        assert(b =~= t.push(y));
    }
}

/// Sorts a list.
pub fn sort<T: Ordered>(items: Vec<T>) -> (r: Vec<T>)
    requires
        all_sound(items@),
    ensures
        keys(r@) == sorted_list(keys(items@)),
        all_sound(r@),
        r@.to_multiset() == items@.to_multiset(),
{
    let ghost all = keys(items@);
    let ghost given = items@;
    let mut rest = items;
    let mut out: Vec<T> = Vec::new();
    let ghost mut done: int = 0;
    assert(rest@ =~= given.skip(0));
    assert(keys(out@) =~= sorted_list(all.take(0)));
    assert(out@ =~= given.take(0));
    while rest.len() > 0
        invariant
            all == keys(given),
            all_sound(given),
            0 <= done <= given.len(),
            rest@ == given.skip(done),
            keys(out@) == sorted_list(all.take(done)),
            all_sound(out@),
            out@.to_multiset() == given.take(done).to_multiset(),
        decreases rest@.len(),
    {
        let x = rest.remove(0);
        assert(x == given[done]);
        assert(rest@ =~= given.skip(done + 1));
        let ghost before = out@;
        let ghost s = keys(out@);
        proof {
            lemma_sorted_list(all.take(done));
            lemma_rank_weak(s, x.key());
        }
        let mut p: usize = 0;
        while p < out.len() && out[p].compare(&x) == Order::Less
            invariant
                p <= out@.len(),
                all_sound(out@),
                x.sound(),
                s == keys(out@),
                nondecreasing(s),
                forall|i: int| 0 <= i < p ==> (#[trigger] s[i]).order(x.key()) == Order::Less,
            decreases out@.len() - p,
        {
            assert(s[p as int] == out@[p as int].key());
            p = p + 1;
        }
        proof {
            assert(p == rank(s, x.key())) by {
                let q = rank(s, x.key());
                if p < q {
                    assert(s[p as int].order(x.key()) == Order::Less);
                    assert(s[p as int] == out@[p as int].key());
                } else if q < p {
                    assert(s[q].order(x.key()) == Order::Less);
                }
            }
        }
        out.insert(p, x);
        proof {
            broadcast use vstd::seq_lib::group_to_multiset_ensures;

            assert(keys(out@) =~= s.insert(p as int, x.key()));
            vstd::seq_lib::to_multiset_insert(before, p as int, x);
            assert(given.take(done + 1) =~= given.take(done).push(x));
            assert(given.take(done).push(x).to_multiset() == given.take(done).to_multiset().insert(
                x,
            ));
            assert(all.take(done + 1).drop_last() =~= all.take(done));
            assert(all.take(done + 1).last() == x.key());
            done = done + 1;
        }
    }
    assert(all.take(done) =~= all);
    assert(given.take(done) =~= given);
    out
}

} // verus!
