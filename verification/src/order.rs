//! Total orders and the sorted collections built on them.
use crate::text;
use vstd::prelude::*;

verus! {

/// How two values stand to each other.
#[derive(Clone, Copy, PartialEq, Eq, Structural, Debug)]
pub enum Order {
    Less,
    Equal,
    Greater,
}

/// The same comparison seen from the other side.
pub open spec fn flip(o: Order) -> Order {
    match o {
        Order::Less => Order::Greater,
        Order::Equal => Order::Equal,
        Order::Greater => Order::Less,
    }
}

/// The first comparison decides, the second breaks its ties.
pub open spec fn then_order(first: Order, second: Order) -> Order {
    match first {
        Order::Equal => second,
        _ => first,
    }
}

/// Comparison of numbers.
pub open spec fn int_order(a: int, b: int) -> Order {
    if a < b {
        Order::Less
    } else if a > b {
        Order::Greater
    } else {
        Order::Equal
    }
}

/// Lexicographic comparison of characters by code point.
pub open spec fn text_order(a: Seq<char>, b: Seq<char>) -> Order
    decreases a.len(),
{
    if a.len() == 0 {
        if b.len() == 0 {
            Order::Equal
        } else {
            Order::Less
        }
    } else if b.len() == 0 {
        Order::Greater
    } else if a[0] == b[0] {
        text_order(a.drop_first(), b.drop_first())
    } else {
        int_order(a[0] as int, b[0] as int)
    }
}

/// Comparing in the other direction flips the answer.
pub proof fn text_order_flips(a: Seq<char>, b: Seq<char>)
    ensures
        text_order(a, b) == flip(text_order(b, a)),
    decreases a.len(),
{
    if a.len() > 0 && b.len() > 0 && a[0] == b[0] {
        text_order_flips(a.drop_first(), b.drop_first());
    }
}

/// Only equal texts compare as equal.
pub proof fn text_order_equal(a: Seq<char>, b: Seq<char>)
    ensures
        text_order(a, b) == Order::Equal <==> a == b,
    decreases a.len(),
{
    if a.len() > 0 && b.len() > 0 && a[0] == b[0] {
        text_order_equal(a.drop_first(), b.drop_first());
        assert(a.drop_first() == b.drop_first() ==> a =~= b) by {
            if a.drop_first() == b.drop_first() {
                assert(a =~= seq![a[0]] + a.drop_first());
                assert(b =~= seq![b[0]] + b.drop_first());
            }
        }
    } else if a.len() == 0 && b.len() == 0 {
        assert(a =~= b);
    }
}

/// The order of texts is transitive.
pub proof fn text_order_transitive(a: Seq<char>, b: Seq<char>, c: Seq<char>)
    requires
        text_order(a, b) == Order::Less,
        text_order(b, c) == Order::Less,
    ensures
        text_order(a, c) == Order::Less,
    decreases a.len(),
{
    if a.len() > 0 && b.len() > 0 && c.len() > 0 && a[0] == b[0] && b[0] == c[0] {
        text_order_transitive(a.drop_first(), b.drop_first(), c.drop_first());
    }
}

/// Compares two texts by their characters.
pub fn compare_text(a: &str, b: &str) -> (r: Order)
    ensures
        r == text_order(a@, b@),
{
    let x = text::chars_of(a);
    let y = text::chars_of(b);
    compare_chars(&x, &y)
}

/// Compares two sequences of characters.
pub fn compare_chars(x: &Vec<char>, y: &Vec<char>) -> (r: Order)
    ensures
        r == text_order(x@, y@),
{
    let mut i: usize = 0;
    assert(x@.skip(0) =~= x@ && y@.skip(0) =~= y@);
    while i < x.len() && i < y.len()
        invariant
            i <= x.len(),
            i <= y.len(),
            text_order(x@, y@) == text_order(x@.skip(i as int), y@.skip(i as int)),
        decreases x.len() - i,
    {
        let c: char = x[i];
        let d: char = y[i];
        if c != d {
            if c < d {
                return Order::Less;
            } else {
                return Order::Greater;
            }
        }
        proof {
            assert(x@.skip(i as int).drop_first() =~= x@.skip(i + 1));
            assert(y@.skip(i as int).drop_first() =~= y@.skip(i + 1));
        }
        i = i + 1;
    }
    if i < x.len() {
        Order::Greater
    } else if i < y.len() {
        Order::Less
    } else {
        Order::Equal
    }
}

/// What transitivity asks of the comparisons of a first with a second, of the second with
/// a third and of the first with the third.
pub open spec fn coherent(ab: Order, bc: Order, ac: Order) -> bool {
    ab != Order::Greater && bc != Order::Greater ==> ac != Order::Greater && (ac == Order::Equal
        <==> ab == Order::Equal && bc == Order::Equal)
}

/// The order of texts is transitive, its ties included.
pub proof fn text_order_coherent(a: Seq<char>, b: Seq<char>, c: Seq<char>)
    ensures
        coherent(text_order(a, b), text_order(b, c), text_order(a, c)),
{
    text_order_equal(a, b);
    text_order_equal(b, c);
    text_order_equal(a, c);
    if text_order(a, b) == Order::Less && text_order(b, c) == Order::Less {
        text_order_transitive(a, b, c);
    }
}

/// Computes the comparison that lets the second break the ties of the first.
pub fn after(first: Order, second: Order) -> (r: Order)
    ensures
        r == then_order(first, second),
{
    match first {
        Order::Equal => second,
        _ => first,
    }
}

/// Compares two numbers.
pub fn compare_u64(a: u64, b: u64) -> (r: Order)
    ensures
        r == int_order(a as int, b as int),
{
    if a < b {
        Order::Less
    } else if a > b {
        Order::Greater
    } else {
        Order::Equal
    }
}

/// Values with a total preorder.
pub trait Total: Sized {
    /// The comparison.
    spec fn order(self, other: Self) -> Order;

    /// Comparing in the other direction flips the answer.
    proof fn order_flips(a: Self, b: Self)
        ensures
            a.order(b) == flip(b.order(a)),
    ;

    /// A value that is not above a second one, which is not above a third one, is not
    /// above the third; it ties with it only if both steps are ties.
    proof fn order_coherent(a: Self, b: Self, c: Self)
        ensures
            coherent(a.order(b), b.order(c), a.order(c)),
    ;
}

impl Total for Seq<char> {
    open spec fn order(self, other: Self) -> Order {
        text_order(self, other)
    }

    proof fn order_flips(a: Self, b: Self) {
        text_order_flips(a, b);
    }

    proof fn order_coherent(a: Self, b: Self, c: Self) {
        text_order_coherent(a, b, c);
    }
}

/// Types whose values are compared by a key.
pub trait Ordered: Sized {
    /// What the comparison looks at.
    type Key: Total;

    /// The key of a value.
    spec fn key(self) -> Self::Key;

    /// The values that can be compared.
    spec fn sound(self) -> bool;

    /// Compares two values by their keys.
    fn compare(&self, other: &Self) -> (r: Order)
        requires
            self.sound(),
            other.sound(),
        ensures
            r == self.key().order(other.key()),
    ;
}

impl Ordered for String {
    type Key = Seq<char>;

    open spec fn key(self) -> Seq<char> {
        self@
    }

    open spec fn sound(self) -> bool {
        true
    }

    fn compare(&self, other: &Self) -> (r: Order) {
        assert(self@.order(other@) == text_order(self@, other@));
        compare_text(self.as_str(), other.as_str())
    }
}

/// The keys of a list of values.
pub open spec fn keys<T: Ordered>(s: Seq<T>) -> Seq<T::Key> {
    s.map_values(|x: T| x.key())
}

/// All values of a list can be compared.
pub open spec fn all_sound<T: Ordered>(s: Seq<T>) -> bool {
    forall|i: int| 0 <= i < s.len() ==> (#[trigger] s[i]).sound()
}

/// Every value of the list is below all later ones.
pub open spec fn increasing<K: Total>(s: Seq<K>) -> bool {
    forall|i: int, j: int|
        0 <= i < j < s.len() ==> (#[trigger] s[i]).order(#[trigger] s[j]) == Order::Less
}

/// Some value of the list compares as equal to `x`.
pub open spec fn has_equal<K: Total>(s: Seq<K>, x: K) -> bool {
    exists|i: int| 0 <= i < s.len() && (#[trigger] s[i]).order(x) == Order::Equal
}

/// The number of values of the list that are below `x`.
pub open spec fn rank<K: Total>(s: Seq<K>, x: K) -> int
    decreases s.len(),
{
    if s.len() == 0 {
        0
    } else if s.last().order(x) == Order::Less {
        rank(s.drop_last(), x) + 1
    } else {
        rank(s.drop_last(), x)
    }
}

/// Where `x` belongs in an increasing list: everything before is below it, nothing
/// from there on is.
pub fn position<T: Ordered>(v: &Vec<T>, x: &T) -> (r: usize)
    requires
        increasing(keys(v@)),
        all_sound(v@),
        x.sound(),
    ensures
        r <= v.len(),
        forall|i: int| 0 <= i < r ==> (#[trigger] keys(v@)[i]).order(x.key()) == Order::Less,
        forall|i: int|
            r <= i < v.len() ==> (#[trigger] keys(v@)[i]).order(x.key()) != Order::Less,
        forall|i: int|
            r < i < v.len() ==> (#[trigger] keys(v@)[i]).order(x.key()) == Order::Greater,
{
    let mut i: usize = 0;
    while i < v.len()
        invariant
            i <= v.len(),
            increasing(keys(v@)),
            all_sound(v@),
            x.sound(),
            forall|k: int| 0 <= k < i ==> (#[trigger] keys(v@)[k]).order(x.key()) == Order::Less,
        decreases v.len() - i,
    {
        let o = v[i].compare(x);
        if o == Order::Less {
            i = i + 1;
        } else {
            proof {
                let ks = keys(v@);
                assert forall|k: int| i < k < v.len() implies (#[trigger] ks[k]).order(x.key())
                    == Order::Greater by {
                    let lo = ks[i as int];
                    T::Key::order_flips(lo, x.key());
                    T::Key::order_flips(ks[k], x.key());
                    assert(lo.order(ks[k]) == Order::Less);
                    T::Key::order_coherent(x.key(), lo, ks[k]);
                }
            }
            return i;
        }
    }
    i
}

/// The first character in which two texts differ decides which comes first, the smaller one;
/// a text comes before the texts that go on behind it.
pub proof fn texts_compare_by_their_first_difference(
    front: Seq<char>,
    a: char,
    b: char,
    x: Seq<char>,
    y: Seq<char>,
)
    ensures
        a < b ==> text_order(front + seq![a] + x, front + seq![b] + y) == Order::Less,
        text_order(front, front + seq![b] + y) == Order::Less,
        text_order(front + seq![a] + x, front) == Order::Greater,
    decreases front.len(),
{
    let s = front + seq![a] + x;
    let t = front + seq![b] + y;
    if front.len() > 0 {
        let rest = front.drop_first();
        texts_compare_by_their_first_difference(rest, a, b, x, y);
        assert(s.drop_first() =~= rest + seq![a] + x);
        assert(t.drop_first() =~= rest + seq![b] + y);
        assert(s[0] == front[0] && t[0] == front[0]);
    } else {
        assert(s[0] == a && t[0] == b);
    }
}

} // verus!
