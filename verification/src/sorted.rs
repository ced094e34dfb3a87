//! Ordered collections kept as increasing lists.
use crate::order::{
    all_sound, has_equal, increasing, keys, position, rank, text_order_equal, text_order_flips,
    Order, Ordered, Total,
};
use crate::text;
use crate::text::texts;
use vstd::prelude::*;

verus! {

/// A list without two equal values, in increasing order.
#[derive(Debug)]
pub struct SortedSet<T> {
    pub items: Vec<T>,
}

/// The list with `x` in its place, unless it already holds an equal value.
pub open spec fn inserted<K: Total>(s: Seq<K>, x: K) -> Seq<K> {
    if has_equal(s, x) {
        s
    } else {
        s.insert(rank(s, x), x)
    }
}

/// The list with `x` in its place, in the stead of an equal value if there is one.
pub open spec fn replaced<K: Total>(s: Seq<K>, x: K) -> Seq<K> {
    if has_equal(s, x) {
        s.update(rank(s, x), x)
    } else {
        s.insert(rank(s, x), x)
    }
}

/// The values of `items` in increasing order; of equal values the last stays.
pub open spec fn collected<K: Total>(items: Seq<K>) -> Seq<K>
    decreases items.len(),
{
    if items.len() == 0 {
        Seq::empty()
    } else {
        replaced(collected(items.drop_last()), items.last())
    }
}

/// `base` with the values of `items` added; of equal values the first stays.
pub open spec fn extended<K: Total>(base: Seq<K>, items: Seq<K>) -> Seq<K>
    decreases items.len(),
{
    if items.len() == 0 {
        base
    } else {
        inserted(extended(base, items.drop_last()), items.last())
    }
}

/// The rank of a value is where the part of the list below it ends.
pub proof fn lemma_rank<K: Total>(s: Seq<K>, x: K, r: int)
    requires
        0 <= r <= s.len(),
        forall|i: int| 0 <= i < r ==> (#[trigger] s[i]).order(x) == Order::Less,
        forall|i: int| r <= i < s.len() ==> (#[trigger] s[i]).order(x) != Order::Less,
    ensures
        rank(s, x) == r,
    decreases s.len(),
{
    if s.len() > 0 {
        let t = s.drop_last();
        assert forall|i: int| 0 <= i < t.len() implies t[i] == s[i] by {}
        if r == s.len() {
            lemma_rank(t, x, r - 1);
        } else {
            lemma_rank(t, x, r);
        }
    }
}

/// In an increasing list everything before the rank of a value is below it and nothing
/// from there on is.
pub proof fn lemma_rank_splits<K: Total>(s: Seq<K>, x: K)
    requires
        increasing(s),
    ensures
        0 <= rank(s, x) <= s.len(),
        forall|i: int| 0 <= i < rank(s, x) ==> (#[trigger] s[i]).order(x) == Order::Less,
        forall|i: int| rank(s, x) <= i < s.len() ==> (#[trigger] s[i]).order(x) != Order::Less,
        forall|i: int| rank(s, x) < i < s.len() ==> (#[trigger] s[i]).order(x) == Order::Greater,
        has_equal(s, x) <==> rank(s, x) < s.len() && s[rank(s, x)].order(x) == Order::Equal,
    decreases s.len(),
{
    if s.len() > 0 {
        let t = s.drop_last();
        assert(increasing(t)) by {
            assert forall|i: int, j: int| 0 <= i < j < t.len() implies (#[trigger] t[i]).order(
                #[trigger] t[j],
            ) == Order::Less by {
                assert(s[i].order(s[j]) == Order::Less);
            }
        }
        lemma_rank_splits(t, x);
        let r = rank(t, x);
        let last = s.last();
        assert forall|i: int| 0 <= i < t.len() implies (#[trigger] s[i]).order(last)
            == Order::Less by {
            assert(s[i].order(s[s.len() - 1]) == Order::Less);
        }
        if last.order(x) == Order::Less {
            assert forall|i: int| 0 <= i < t.len() implies (#[trigger] s[i]).order(x)
                == Order::Less by {
                K::order_coherent(s[i], last, x);
            }
            assert(r == t.len()) by {
                if r < t.len() {
                    assert(t[r].order(x) != Order::Less);
                    assert(s[r].order(x) == Order::Less);
                }
            }
        } else {
            assert forall|i: int| 0 <= i < rank(s, x) implies (#[trigger] s[i]).order(x)
                == Order::Less by {
                assert(t[i].order(x) == Order::Less);
            }
            assert forall|i: int| rank(s, x) <= i < s.len() implies (#[trigger] s[i]).order(x)
                != Order::Less by {
                if i < t.len() {
                    assert(t[i].order(x) != Order::Less);
                }
            }
            assert forall|i: int| rank(s, x) < i < s.len() implies (#[trigger] s[i]).order(x)
                == Order::Greater by {
                if i < t.len() {
                    assert(t[i].order(x) == Order::Greater);
                } else {
                    let lo = s[rank(s, x)];
                    assert(lo.order(x) != Order::Less);
                    K::order_flips(lo, x);
                    K::order_flips(last, x);
                    K::order_coherent(x, lo, last);
                }
            }
        }
    }
    let r = rank(s, x);
    if has_equal(s, x) {
        let i = choose|i: int| 0 <= i < s.len() && (#[trigger] s[i]).order(x) == Order::Equal;
        assert(i == r);
    }
}

/// Putting a value in its place keeps the list increasing, and the list then holds that
/// value and its former ones, but for one that the new value took the place of.
pub proof fn lemma_replaced<K: Total>(s: Seq<K>, x: K)
    requires
        increasing(s),
    ensures
        increasing(replaced(s, x)),
        replaced(s, x).contains(x),
        forall|y: K|
            #![trigger replaced(s, x).contains(y)]
            replaced(s, x).contains(y) <==> y == x || (s.contains(y) && y.order(x)
                != Order::Equal),
{
    lemma_rank_splits(s, x);
    let p = rank(s, x);
    let n = replaced(s, x);
    assert(n[p] == x);
    assert forall|i: int, j: int| 0 <= i < j < n.len() implies (#[trigger] n[i]).order(
        #[trigger] n[j],
    ) == Order::Less by {
        let shift: int = if has_equal(s, x) { 0 } else { 1 };
        if j == p {
            assert(n[i] == s[i]);
        } else if i == p {
            assert(n[j] == s[j - shift]);
            K::order_flips(s[j - shift], x);
        } else {
            let a = if i < p { i } else { i - shift };
            let b = if j < p { j } else { j - shift };
            assert(n[i] == s[a] && n[j] == s[b]);
        }
    }
    assert forall|y: K| #![trigger n.contains(y)] n.contains(y) <==> y == x || (s.contains(y)
        && y.order(x) != Order::Equal) by {
        let shift: int = if has_equal(s, x) { 0 } else { 1 };
        if n.contains(y) && y != x {
            let i = choose|i: int| 0 <= i < n.len() && n[i] == y;
            let a = if i < p { i } else { i - shift };
            assert(i != p);
            assert(s[a] == y);
        }
        if s.contains(y) && y.order(x) != Order::Equal {
            let a = choose|a: int| 0 <= a < s.len() && s[a] == y;
            let i = if a < p { a } else { a + shift };
            if has_equal(s, x) {
                assert(a != p);
            }
            assert(n[i] == y);
        }
        if y == x {
            assert(n[p] == y);
        }
    }
}

/// Adding a value keeps the list increasing; the list then holds its former values, and
/// the new one unless it held an equal one.
pub proof fn lemma_inserted<K: Total>(s: Seq<K>, x: K)
    requires
        increasing(s),
    ensures
        increasing(inserted(s, x)),
        has_equal(inserted(s, x), x),
        forall|y: K|
            #![trigger inserted(s, x).contains(y)]
            inserted(s, x).contains(y) <==> s.contains(y) || (y == x && !has_equal(s, x)),
{
    if !has_equal(s, x) {
        lemma_replaced(s, x);
        lemma_rank_splits(s, x);
        let n = inserted(s, x);
        assert(n == replaced(s, x));
        K::order_flips(x, x);
        assert(n[rank(s, x)].order(x) == Order::Equal);
        assert forall|y: K| #![trigger n.contains(y)] n.contains(y) <==> s.contains(y) || y
            == x by {
            if s.contains(y) {
                let a = choose|a: int| 0 <= a < s.len() && s[a] == y;
                assert(y.order(x) != Order::Equal);
            }
        }
    }
}

/// Collecting gives an increasing list of some of the given values, with an equal of each.
pub proof fn lemma_collected<K: Total>(items: Seq<K>)
    ensures
        increasing(collected(items)),
        forall|y: K| #[trigger] collected(items).contains(y) ==> items.contains(y),
        forall|i: int| 0 <= i < items.len() ==> has_equal(collected(items), #[trigger] items[i]),
    decreases items.len(),
{
    if items.len() > 0 {
        let t = items.drop_last();
        let x = items.last();
        lemma_collected(t);
        lemma_replaced(collected(t), x);
        let n = collected(items);
        assert forall|y: K| #[trigger] n.contains(y) implies items.contains(y) by {
            if y == x {
                assert(items[items.len() - 1] == y);
            } else {
                assert(collected(t).contains(y));
                let a = choose|a: int| 0 <= a < t.len() && t[a] == y;
                assert(items[a] == y);
            }
        }
        K::order_flips(x, x);
        assert forall|i: int| 0 <= i < items.len() implies has_equal(n, #[trigger] items[i]) by {
            let k = choose|k: int| 0 <= k < n.len() && n[k] == x;
            if i == items.len() - 1 {
                assert(n[k].order(items[i]) == Order::Equal);
            } else {
                assert(items[i] == t[i]);
                assert(has_equal(collected(t), t[i]));
                let c = collected(t);
                let m = choose|m: int| 0 <= m < c.len() && (#[trigger] c[m]).order(t[i])
                    == Order::Equal;
                if c[m].order(x) == Order::Equal {
                    K::order_flips(c[m], x);
                    K::order_coherent(x, c[m], t[i]);
                    assert(n[k].order(items[i]) == Order::Equal);
                } else {
                    assert(c.contains(c[m]));
                    assert(n.contains(c[m]));
                    let q = choose|q: int| 0 <= q < n.len() && n[q] == c[m];
                    assert(n[q].order(items[i]) == Order::Equal);
                }
            }
        }
    }
}

/// Adding values none of which equals one that is there gives exactly the union.
#[verifier::spinoff_prover]
#[verifier::rlimit(40)]
pub proof fn lemma_extended<K: Total>(base: Seq<K>, items: Seq<K>)
    requires
        increasing(base),
        increasing(items),
        forall|i: int| 0 <= i < items.len() ==> !has_equal(base, #[trigger] items[i]),
    ensures
        increasing(extended(base, items)),
        forall|y: K|
            #![trigger extended(base, items).contains(y)]
            extended(base, items).contains(y) <==> base.contains(y) || items.contains(y),
    decreases items.len(),
{
    if items.len() > 0 {
        let t = items.drop_last();
        let x = items.last();
        assert(increasing(t)) by {
            assert forall|i: int, j: int| 0 <= i < j < t.len() implies (#[trigger] t[i]).order(
                #[trigger] t[j],
            ) == Order::Less by {
                assert(items[i].order(items[j]) == Order::Less);
            }
        }
        assert forall|i: int| 0 <= i < t.len() implies !has_equal(base, #[trigger] t[i]) by {
            assert(t[i] == items[i]);
        }
        lemma_extended(base, t);
        let before = extended(base, t);
        lemma_inserted(before, x);
        assert(!has_equal(base, items[items.len() - 1]));
        if has_equal(before, x) {
            let k = choose|k: int|
                0 <= k < before.len() && (#[trigger] before[k]).order(x) == Order::Equal;
            assert(before.contains(before[k]));
            if base.contains(before[k]) {
                let m = choose|m: int| 0 <= m < base.len() && base[m] == before[k];
                assert(base[m].order(x) == Order::Equal);
            } else {
                let m = choose|m: int| 0 <= m < t.len() && t[m] == before[k];
                assert(items[m].order(items[items.len() - 1]) == Order::Less);
            }
        }
        let n = extended(base, items);
        assert forall|y: K| #![trigger n.contains(y)] n.contains(y) <==> base.contains(y)
            || items.contains(y) by {
            if items.contains(y) {
                let m = choose|m: int| 0 <= m < items.len() && items[m] == y;
                if m < t.len() {
                    assert(t[m] == y);
                }
            }
            if t.contains(y) {
                let m = choose|m: int| 0 <= m < t.len() && t[m] == y;
                assert(items[m] == y);
            }
            if y == x {
                assert(items[items.len() - 1] == y);
            }
        }
    } else {
        assert forall|y: K|
            #![trigger extended(base, items).contains(y)]
            extended(base, items).contains(y) <==> base.contains(y) || items.contains(y) by {}
    }
}

/// Two increasing lists of the same values are the same list.
pub proof fn lemma_increasing_unique<K: Total>(a: Seq<K>, b: Seq<K>)
    requires
        increasing(a),
        increasing(b),
        forall|y: K| a.contains(y) <==> b.contains(y),
    ensures
        a == b,
    decreases a.len(),
{
    if a.len() == 0 {
        if b.len() > 0 {
            assert(b.contains(b[0]));
            assert(a.contains(b[0]));
        }
        assert(a =~= b);
    } else {
        let x = a.last();
        assert(a.contains(a[a.len() - 1]));
        assert(b.contains(x));
        let k = choose|k: int| 0 <= k < b.len() && b[k] == x;
        let y = b.last();
        assert(b.contains(b[b.len() - 1]));
        assert(a.contains(y));
        let m = choose|m: int| 0 <= m < a.len() && a[m] == y;
        if k < b.len() - 1 {
            assert(b[k].order(b[b.len() - 1]) == Order::Less);
            K::order_flips(x, y);
            K::order_flips(x, x);
            if m < a.len() - 1 {
                assert(a[m].order(a[a.len() - 1]) == Order::Less);
            }
        }
        assert(x == y);
        let s = a.drop_last();
        let t = b.drop_last();
        assert(increasing(s)) by {
            assert forall|i: int, j: int| 0 <= i < j < s.len() implies (#[trigger] s[i]).order(
                #[trigger] s[j],
            ) == Order::Less by {
                assert(a[i].order(a[j]) == Order::Less);
            }
        }
        assert(increasing(t)) by {
            assert forall|i: int, j: int| 0 <= i < j < t.len() implies (#[trigger] t[i]).order(
                #[trigger] t[j],
            ) == Order::Less by {
                assert(b[i].order(b[j]) == Order::Less);
            }
        }
        K::order_flips(x, x);
        assert forall|z: K| s.contains(z) <==> t.contains(z) by {
            if s.contains(z) {
                let i = choose|i: int| 0 <= i < s.len() && s[i] == z;
                assert(a[i].order(a[a.len() - 1]) == Order::Less);
                assert(a.contains(a[i]));
                assert(b.contains(z));
                let j = choose|j: int| 0 <= j < b.len() && b[j] == z;
                assert(j != b.len() - 1);
                assert(t[j] == z);
            }
            if t.contains(z) {
                let i = choose|i: int| 0 <= i < t.len() && t[i] == z;
                assert(b[i].order(b[b.len() - 1]) == Order::Less);
                assert(b.contains(b[i]));
                assert(a.contains(z));
                let j = choose|j: int| 0 <= j < a.len() && a[j] == z;
                assert(j != a.len() - 1);
                assert(s[j] == z);
            }
        }
        lemma_increasing_unique(s, t);
        assert(a =~= s.push(x));
        assert(b =~= t.push(y));
    }
}

impl<T: Ordered> SortedSet<T> {
    /// The keys of the values.
    pub open spec fn view(&self) -> Seq<T::Key> {
        keys(self.items@)
    }

    /// The values are in increasing order.
    pub open spec fn wf(&self) -> bool {
        all_sound(self.items@) && increasing(self@)
    }

    /// A set without values.
    pub fn new() -> (r: Self)
        ensures
            r.wf(),
            r@ == Seq::<T::Key>::empty(),
    {
        let r = SortedSet { items: Vec::new() };
        assert(keys(r.items@) =~= Seq::<T::Key>::empty());
        r
    }

    /// Adds a value unless an equal one is there; tells whether it was added.
    pub fn insert(&mut self, x: T) -> (r: bool)
        requires
            old(self).wf(),
            x.sound(),
        ensures
            final(self).wf(),
            final(self)@ == inserted(old(self)@, x.key()),
            r == !has_equal(old(self)@, x.key()),
    {
        let p = position(&self.items, &x);
        let ghost before = self.items@;
        proof {
            lemma_rank(self@, x.key(), p as int);
            lemma_rank_splits(self@, x.key());
            lemma_inserted(self@, x.key());
        }
        if p < self.items.len() && self.items[p].compare(&x) == Order::Equal {
            return false;
        }
        self.items.insert(p, x);
        assert(keys(self.items@) =~= keys(before).insert(p as int, x.key()));
        true
    }

    /// Puts a value in its place, in the stead of an equal one if there is one.
    pub fn replace(&mut self, x: T)
        requires
            old(self).wf(),
            x.sound(),
        ensures
            final(self).wf(),
            final(self)@ == replaced(old(self)@, x.key()),
    {
        let p = position(&self.items, &x);
        let ghost before = self.items@;
        proof {
            lemma_rank(self@, x.key(), p as int);
            lemma_rank_splits(self@, x.key());
            lemma_replaced(self@, x.key());
        }
        if p < self.items.len() && self.items[p].compare(&x) == Order::Equal {
            self.items.set(p, x);
            assert(keys(self.items@) =~= keys(before).update(p as int, x.key()));
        } else {
            self.items.insert(p, x);
            assert(keys(self.items@) =~= keys(before).insert(p as int, x.key()));
        }
    }

    /// Whether an equal value is there.
    pub fn contains(&self, x: &T) -> (r: bool)
        requires
            self.wf(),
            x.sound(),
        ensures
            r == has_equal(self@, x.key()),
    {
        let p = position(&self.items, x);
        proof {
            lemma_rank(self@, x.key(), p as int);
            lemma_rank_splits(self@, x.key());
        }
        p < self.items.len() && self.items[p].compare(x) == Order::Equal
    }
}

/// Taking a value out of an increasing list leaves an increasing list.
pub proof fn lemma_removed<K: Total>(s: Seq<K>, i: int)
    requires
        increasing(s),
        0 <= i < s.len(),
    ensures
        increasing(s.remove(i)),
{
    let t = s.remove(i);
    assert forall|a: int, b: int| 0 <= a < b < t.len() implies (#[trigger] t[a]).order(
        #[trigger] t[b],
    ) == Order::Less by {
        let x = if a < i { a } else { a + 1 };
        let y = if b < i { b } else { b + 1 };
        assert(s[x].order(s[y]) == Order::Less);
    }
}

impl<T: Ordered> SortedSet<T> {
    /// Takes out the value at a place.
    pub fn take_at(&mut self, i: usize) -> (r: T)
        requires
            old(self).wf(),
            i < old(self).items@.len(),
        ensures
            final(self).wf(),
            r == old(self).items@[i as int],
            r.key() == old(self)@[i as int],
            r.sound(),
            final(self)@ == old(self)@.remove(i as int),
    {
        let ghost before = self.items@;
        let r = self.items.remove(i);
        proof {
            lemma_removed(keys(before), i as int);
            assert(keys(self.items@) =~= keys(before).remove(i as int));
            assert forall|k: int| 0 <= k < self.items@.len() implies (
            #[trigger] self.items@[k]).sound() by {
                let a = if k < i { k } else { k + 1 };
                assert(self.items@[k] == before[a]);
            }
        }
        r
    }
}

/// Two lists hold values that compare as equal, one by one.
pub open spec fn tied<K: Total>(a: Seq<K>, b: Seq<K>) -> bool {
    a.len() == b.len() && forall|i: int|
        0 <= i < a.len() ==> (#[trigger] a[i]).order(b[i]) == Order::Equal
}

impl<T: Ordered> SortedSet<T> {
    /// Whether two sets hold values that compare as equal.
    pub fn same(&self, other: &SortedSet<T>) -> (r: bool)
        requires
            self.wf(),
            other.wf(),
        ensures
            r == tied(self@, other@),
    {
        if self.items.len() != other.items.len() {
            return false;
        }
        let mut i: usize = 0;
        while i < self.items.len()
            invariant
                i <= self.items.len(),
                self.items.len() == other.items.len(),
                self.wf(),
                other.wf(),
                forall|k: int| 0 <= k < i ==> (#[trigger] self@[k]).order(other@[k])
                    == Order::Equal,
            decreases self.items.len() - i,
        {
            let o = self.items[i].compare(&other.items[i]);
            assert(self@[i as int] == self.items@[i as int].key());
            assert(other@[i as int] == other.items@[i as int].key());
            if o != Order::Equal {
                return false;
            }
            i = i + 1;
        }
        true
    }
}

/// A map from texts, kept in the order of its keys.
#[derive(Debug)]
pub struct TextMap<V> {
    pub keys: Vec<String>,
    pub values: Vec<V>,
}

/// The place of a key in a list of texts, if it is there.
pub open spec fn key_at(keys: Seq<String>, key: Seq<char>, i: int) -> bool {
    0 <= i < keys.len() && keys[i]@ == key
}

impl<V> TextMap<V> {
    /// One value for each key, and the keys in increasing order.
    pub open spec fn wf(&self) -> bool {
        &&& self.keys@.len() == self.values@.len()
        &&& increasing(texts(self.keys@))
    }

    /// Whether the key is there.
    pub open spec fn has_key(&self, key: Seq<char>) -> bool {
        exists|i: int| key_at(self.keys@, key, i)
    }

    /// The value at a key.
    pub open spec fn at(&self, key: Seq<char>) -> V {
        self.values@[choose|i: int| key_at(self.keys@, key, i)]
    }

    /// The map that the lists stand for.
    pub open spec fn view(&self) -> Map<Seq<char>, V> {
        Map::new(|key: Seq<char>| self.has_key(key), |key: Seq<char>| self.at(key))
    }

    /// The value at a place is the value of the key at that place.
    pub proof fn lemma_at(&self, i: int)
        requires
            self.wf(),
            0 <= i < self.keys@.len(),
        ensures
            self.has_key(self.keys@[i]@),
            self@.contains_key(self.keys@[i]@),
            self@[self.keys@[i]@] == self.values@[i],
            self.at(self.keys@[i]@) == self.values@[i],
    {
        let key = self.keys@[i]@;
        assert(key_at(self.keys@, key, i));
        let j = choose|j: int| key_at(self.keys@, key, j);
        text_order_equal(self.keys@[i]@, self.keys@[j]@);
        if i < j {
            assert(texts(self.keys@)[i].order(texts(self.keys@)[j]) == Order::Less);
        } else if j < i {
            assert(texts(self.keys@)[j].order(texts(self.keys@)[i]) == Order::Less);
        }
    }

    /// A map without keys.
    pub fn new() -> (r: Self)
        ensures
            r.wf(),
            r@ == Map::<Seq<char>, V>::empty(),
            r.keys@ == Seq::<String>::empty(),
    {
        let r = TextMap { keys: Vec::new(), values: Vec::new() };
        assert(r@ =~= Map::<Seq<char>, V>::empty());
        r
    }

    /// The place of a key.
    pub fn find(&self, key: &str) -> (r: Option<usize>)
        requires
            self.wf(),
        ensures
            match r {
                Some(i) => i < self.keys@.len() && self.keys@[i as int]@ == key@ && i
                    < self.values@.len() && self@.contains_key(key@) && self@[key@]
                    == self.values@[i as int],
                None => !self@.contains_key(key@),
            },
    {
        let mut i: usize = 0;
        while i < self.keys.len()
            invariant
                i <= self.keys@.len(),
                self.wf(),
                forall|j: int| 0 <= j < i ==> (#[trigger] self.keys@[j])@ != key@,
            decreases self.keys.len() - i,
        {
            if text::same(self.keys[i].as_str(), key) {
                proof {
                    self.lemma_at(i as int);
                }
                return Some(i);
            }
            i = i + 1;
        }
        None
    }

    /// The value of a key.
    pub fn get(&self, key: &str) -> (r: Option<&V>)
        requires
            self.wf(),
        ensures
            match r {
                Some(v) => self@.contains_key(key@) && *v == self@[key@],
                None => !self@.contains_key(key@),
            },
    {
        match self.find(key) {
            Some(i) => Some(&self.values[i]),
            None => None,
        }
    }

    /// Whether the key is there.
    pub fn contains_key(&self, key: &str) -> (r: bool)
        requires
            self.wf(),
        ensures
            r == self@.contains_key(key@),
    {
        self.find(key).is_some()
    }

    /// Putting a key and its value in the place of the key is an insertion into the map.
    proof fn lemma_put(before: Self, after: Self, key: String, value: V, p: int)
        requires
            before.wf(),
            after.wf(),
            0 <= p <= before.keys@.len(),
            ({
                ||| (p < before.keys@.len() && before.keys@[p]@ == key@ && after.keys@
                    == before.keys@.update(p, key) && after.values@ == before.values@.update(
                    p,
                    value,
                ))
                ||| (after.keys@ == before.keys@.insert(p, key) && after.values@
                    == before.values@.insert(p, value))
            }),
        ensures
            after@ == before@.insert(key@, value),
    {
        let shift: int = if after.keys@.len() == before.keys@.len() { 0 } else { 1 };
        assert forall|k: Seq<char>| after.has_key(k) <==> before.has_key(k) || k == key@ by {
            if after.has_key(k) && k != key@ {
                let i = choose|i: int| key_at(after.keys@, k, i);
                let a = if i < p { i } else { i - shift };
                assert(key_at(before.keys@, k, a));
            }
            if before.has_key(k) {
                let a = choose|a: int| key_at(before.keys@, k, a);
                let i = if a < p { a } else { a + shift };
                if k != key@ {
                    assert(key_at(after.keys@, k, i));
                }
            }
            if k == key@ {
                assert(key_at(after.keys@, k, p));
            }
        }
        assert forall|k: Seq<char>| after.has_key(k) implies after.at(k) == before@.insert(
            key@,
            value,
        )[k] by {
            let i = choose|i: int| key_at(after.keys@, k, i);
            after.lemma_at(i);
            if k == key@ {
                after.lemma_at(p);
            } else {
                let a = if i < p { i } else { i - shift };
                before.lemma_at(a);
            }
        }
        assert(after@ =~= before@.insert(key@, value));
    }

    /// Sets the value of a key.
    pub fn insert(&mut self, key: String, value: V)
        requires
            old(self).wf(),
        ensures
            final(self).wf(),
            final(self)@ == old(self)@.insert(key@, value),
    {
        let ghost before = *self;
        assert(keys(self.keys@) =~= texts(self.keys@));
        let p = position(&self.keys, &key);
        let ghost names = texts(self.keys@);
        proof {
            lemma_rank(names, key@, p as int);
            lemma_rank_splits(names, key@);
            lemma_replaced(names, key@);
            if p < names.len() {
                text_order_equal(names[p as int], key@);
            }
        }
        if p < self.keys.len() && self.keys[p].compare(&key) == Order::Equal {
            self.keys.set(p, key);
            self.values.set(p, value);
            assert(texts(self.keys@) =~= names.update(p as int, key@));
        } else {
            self.keys.insert(p, key);
            self.values.insert(p, value);
            assert(texts(self.keys@) =~= names.insert(p as int, key@));
        }
        proof {
            Self::lemma_put(before, *self, key, value, p as int);
        }
    }

    /// Takes a key out.
    pub fn remove(&mut self, key: &str)
        requires
            old(self).wf(),
        ensures
            final(self).wf(),
            final(self)@ == old(self)@.remove(key@),
    {
        let ghost before = *self;
        match self.find(key) {
            None => {
                assert(before@.remove(key@) =~= before@);
            },
            Some(p) => {
                self.keys.remove(p);
                self.values.remove(p);
                proof {
                    let after = *self;
                    let old_names = texts(before.keys@);
                    let new_names = texts(after.keys@);
                    assert(increasing(new_names)) by {
                        assert forall|i: int, j: int| 0 <= i < j < new_names.len() implies (
                        #[trigger] new_names[i]).order(#[trigger] new_names[j])
                            == Order::Less by {
                            let a = if i < p { i } else { i + 1 };
                            let b = if j < p { j } else { j + 1 };
                            assert(new_names[i] == old_names[a] && new_names[j] == old_names[b]);
                            assert(old_names[a].order(old_names[b]) == Order::Less);
                        }
                    }
                    before.lemma_at(p as int);
                    assert forall|k: Seq<char>| after.has_key(k) <==> before.has_key(k) && k
                        != key@ by {
                        if after.has_key(k) {
                            let i = choose|i: int| key_at(after.keys@, k, i);
                            let a = if i < p { i } else { i + 1 };
                            assert(key_at(before.keys@, k, a));
                            if k == key@ {
                                text_order_equal(before.keys@[a]@, before.keys@[p as int]@);
                                text_order_flips(before.keys@[a]@, before.keys@[p as int]@);
                                if a < p {
                                    assert(old_names[a].order(old_names[p as int])
                                        == Order::Less);
                                } else {
                                    assert(old_names[p as int].order(old_names[a])
                                        == Order::Less);
                                }
                            }
                        }
                        if before.has_key(k) && k != key@ {
                            let a = choose|a: int| key_at(before.keys@, k, a);
                            let i = if a < p { a } else { a - 1 };
                            assert(key_at(after.keys@, k, i));
                        }
                    }
                    assert forall|k: Seq<char>| after.has_key(k) implies after.at(k)
                        == before@[k] by {
                        let i = choose|i: int| key_at(after.keys@, k, i);
                        after.lemma_at(i);
                        let a = if i < p { i } else { i + 1 };
                        before.lemma_at(a);
                    }
                    assert(after@ =~= before@.remove(key@));
                }
            },
        }
    }
}

} // verus!
