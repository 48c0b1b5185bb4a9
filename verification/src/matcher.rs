//! Ordered values, sorting, and the search for the nearest of a list of
//! targets.

use vstd::prelude::*;

verus! {

/// A value that stands for a whole number and is ordered as that number.
pub trait Scalar: Copy {
    /// The number that the value stands for.
    spec fn value(self) -> int;

    /// Whether `self` is below `other`.
    fn less_than(self, other: Self) -> (r: bool)
        ensures
            r == (self.value() < other.value()),
    ;

    /// How far `self` is above `other`.
    fn minus(self, other: Self) -> (r: u64)
        requires
            other.value() <= self.value(),
        ensures
            r == self.value() - other.value(),
    ;
}

impl Scalar for isize {
    open spec fn value(self) -> int {
        self as int
    }

    fn less_than(self, other: Self) -> (r: bool) {
        self < other
    }

    fn minus(self, other: Self) -> (r: u64) {
        (self as i128 - other as i128) as u64
    }
}

impl Scalar for usize {
    open spec fn value(self) -> int {
        self as int
    }

    fn less_than(self, other: Self) -> (r: bool) {
        self < other
    }

    fn minus(self, other: Self) -> (r: u64) {
        (self - other) as u64
    }
}

/// The distance between two numbers.
pub open spec fn distance(a: int, b: int) -> int {
    if a > b {
        a - b
    } else {
        b - a
    }
}

/// Whether no item is above a later one.
pub open spec fn ascending<T: Scalar>(xs: Seq<T>) -> bool {
    forall|i: int, j: int| 0 <= i < j < xs.len() ==> xs[i].value() <= xs[j].value()
}

/// Whether each item is below every later one: the list is in order and
/// no value occurs twice.
pub open spec fn strictly_ascending<T: Scalar>(xs: Seq<T>) -> bool {
    forall|i: int, j: int| 0 <= i < j < xs.len() ==> xs[i].value() < xs[j].value()
}

/// Whether some item of the list stands for the number `x`.
pub open spec fn holds_value<T: Scalar>(xs: Seq<T>, x: int) -> bool {
    exists|j: int| 0 <= j < xs.len() && (#[trigger] xs[j]).value() == x
}

/// How many items are below `x`. In an ascending list that is the place
/// of the first item that is not below `x`.
pub open spec fn count_below<T: Scalar>(x: int, xs: Seq<T>) -> int
    decreases xs.len(),
{
    if xs.len() == 0 {
        0
    } else {
        count_below(x, xs.drop_last()) + if xs.last().value() < x {
            1int
        } else {
            0int
        }
    }
}

/// The place of the target nearest to `x` in an ascending list that is
/// not empty: the first target that equals `x` if there is one; else,
/// with `i` the number of targets below `x`, the first target of all if
/// `i` is zero, the last if all are below `x`, and otherwise target `i`
/// if it is strictly nearer to `x` than target `i - 1`, and target
/// `i - 1` if not.
pub open spec fn closest_index<T: Scalar>(x: int, xs: Seq<T>) -> int {
    let i = count_below(x, xs);
    if i < xs.len() && xs[i].value() == x {
        i
    } else if i == 0 {
        0
    } else if i == xs.len() {
        i - 1
    } else if distance(xs[i].value(), x) < distance(xs[i - 1].value(), x) {
        i
    } else {
        i - 1
    }
}

/// In an ascending list, the place that parts the items below `x` from
/// the others is the number of items below `x`.
pub proof fn lemma_count_below<T: Scalar>(x: int, xs: Seq<T>, i: int)
    requires
        0 <= i <= xs.len(),
        forall|j: int| 0 <= j < i ==> (#[trigger] xs[j]).value() < x,
        forall|j: int| i <= j < xs.len() ==> (#[trigger] xs[j]).value() >= x,
    ensures
        count_below(x, xs) == i,
    decreases xs.len(),
{
    if xs.len() > 0 {
        let front = xs.drop_last();
        if i == xs.len() {
            assert forall|j: int| 0 <= j < i - 1 implies (#[trigger] front[j]).value() < x by {
                assert(front[j] == xs[j]);
            }
            lemma_count_below(x, front, i - 1);
        } else {
            assert forall|j: int| 0 <= j < i implies (#[trigger] front[j]).value() < x by {
                assert(front[j] == xs[j]);
            }
            assert forall|j: int| i <= j < front.len() implies (#[trigger] front[j]).value()
                >= x by {
                assert(front[j] == xs[j]);
            }
            lemma_count_below(x, front, i);
        }
    }
}

/// The distance between two values.
pub fn difference<T: Scalar>(a: T, b: T) -> (r: u64)
    ensures
        r == distance(a.value(), b.value()),
{
    if b.less_than(a) {
        a.minus(b)
    } else {
        b.minus(a)
    }
}

/// The place in an ascending list where `x` can be put in and the list
/// stays ascending: before the first item that is not below `x`.
pub fn insertion_point<T: Scalar>(x: T, xs: &[T]) -> (r: usize)
    requires
        ascending(xs@),
    ensures
        r == count_below(x.value(), xs@),
        r <= xs@.len(),
        forall|j: int| 0 <= j < r ==> (#[trigger] xs@[j]).value() < x.value(),
        forall|j: int| r <= j < xs@.len() ==> (#[trigger] xs@[j]).value() >= x.value(),
{
    let mut low: usize = 0;
    let mut high: usize = xs.len();
    while low < high
        invariant
            low <= high <= xs@.len(),
            ascending(xs@),
            forall|j: int| 0 <= j < low ==> (#[trigger] xs@[j]).value() < x.value(),
            forall|j: int| high <= j < xs@.len() ==> (#[trigger] xs@[j]).value() >= x.value(),
        decreases high - low,
    {
        let middle: usize = low + (high - low) / 2;
        if xs[middle].less_than(x) {
            low = middle + 1;
        } else {
            high = middle;
        }
    }
    proof {
        lemma_count_below(x.value(), xs@, low as int);
    }
    low
}

/// The place of the target nearest to `x` in an ascending list of
/// targets. Of two targets at the same distance on either side of `x` it
/// is the lower one.
pub fn closest<T: Scalar>(x: T, xs: &[T]) -> (r: usize)
    requires
        xs@.len() > 0,
        ascending(xs@),
    ensures
        r == closest_index(x.value(), xs@),
        r < xs@.len(),
        forall|j: int|
            0 <= j < xs@.len() ==> distance(xs@[r as int].value(), x.value()) <= distance(
                (#[trigger] xs@[j]).value(),
                x.value(),
            ),
{
    let i: usize = insertion_point(x, xs);
    if i < xs.len() && !x.less_than(xs[i]) {
        i
    } else if i == 0 {
        0
    } else if i == xs.len() {
        i - 1
    } else if difference(xs[i], x) < difference(xs[i - 1], x) {
        i
    } else {
        i - 1
    }
}

/// The items of `items` in ascending order.
pub fn sort<T: Scalar>(items: &[T]) -> (r: Vec<T>)
    ensures
        ascending(r@),
        r@.to_multiset() == items@.to_multiset(),
{
    let mut out: Vec<T> = Vec::new();
    let mut k: usize = 0;
    proof {
        assert(out@ =~= items@.take(0));
    }
    while k < items.len()
        invariant
            k <= items@.len(),
            ascending(out@),
            out@.to_multiset() == items@.take(k as int).to_multiset(),
        decreases items@.len() - k,
    {
        let x: T = items[k];
        let place: usize = insertion_point(x, out.as_slice());
        proof {
            lemma_insert_to_multiset(out@, place as int, x);
            assert(items@.take(k + 1) =~= items@.take(k as int).push(x));
            vstd::seq_lib::to_multiset_build(items@.take(k as int), x);
        }
        out.insert(place, x);
        k = k + 1;
    }
    proof {
        assert(items@.take(k as int) =~= items@);
    }
    out
}

/// Putting an item into a list adds it to what the list holds.
pub proof fn lemma_insert_to_multiset<T>(s: Seq<T>, i: int, x: T)
    requires
        0 <= i <= s.len(),
    ensures
        s.insert(i, x).to_multiset() == s.to_multiset().insert(x),
{
    let t = s.insert(i, x);
    assert(t.remove(i) =~= s);
    vstd::seq_lib::to_multiset_remove(t, i);
    t.to_multiset_ensures();
    assert(t[i] == x);
    assert(t.contains(x));
    assert(t.to_multiset() =~= s.to_multiset().insert(x));
}

/// A list with one more item, wherever it stands, holds the values it
/// held and the value of that item.
pub proof fn lemma_insert_holds<T: Scalar>(s: Seq<T>, i: int, x: T)
    requires
        0 <= i <= s.len(),
    ensures
        forall|y: int|
            #[trigger] holds_value(s.insert(i, x), y) <==> holds_value(s, y) || y == x.value(),
{
    let t = s.insert(i, x);
    assert forall|y: int| #[trigger] holds_value(t, y) <==> holds_value(s, y) || y
        == x.value() by {
        if holds_value(t, y) {
            let j = choose|j: int| 0 <= j < t.len() && (#[trigger] t[j]).value() == y;
            if j < i {
                assert(s[j].value() == y);
            } else if j > i {
                assert(s[j - 1].value() == y);
            }
        }
        if holds_value(s, y) {
            let j = choose|j: int| 0 <= j < s.len() && (#[trigger] s[j]).value() == y;
            if j < i {
                assert(t[j].value() == y);
            } else {
                assert(t[j + 1].value() == y);
            }
        }
        if y == x.value() {
            assert(t[i].value() == y);
        }
    }
}

/// The values of `items`, each once, in ascending order.
pub fn sort_unique<T: Scalar>(items: &[T]) -> (r: Vec<T>)
    ensures
        strictly_ascending(r@),
        forall|y: int| #[trigger] holds_value(r@, y) <==> holds_value(items@, y),
        forall|j: int| 0 <= j < r@.len() ==> items@.contains(#[trigger] r@[j]),
{
    let mut out: Vec<T> = Vec::new();
    let mut k: usize = 0;
    proof {
        assert forall|y: int| !holds_value(items@.take(0), y) by {}
    }
    while k < items.len()
        invariant
            k <= items@.len(),
            strictly_ascending(out@),
            forall|y: int|
                #[trigger] holds_value(out@, y) <==> holds_value(items@.take(k as int), y),
            forall|j: int| 0 <= j < out@.len() ==> items@.contains(#[trigger] out@[j]),
        decreases items@.len() - k,
    {
        let x: T = items[k];
        let place: usize = insertion_point(x, out.as_slice());
        proof {
            assert(items@.take(k + 1) =~= items@.take(k as int).insert(k as int, x));
            lemma_insert_holds(items@.take(k as int), k as int, x);
            assert(items@.contains(x));
        }
        if place < out.len() && !x.less_than(out[place]) {
            proof {
                assert(out@[place as int].value() == x.value());
                assert(holds_value(out@, x.value()));
            }
        } else {
            proof {
                lemma_insert_holds(out@, place as int, x);
            }
            let ghost before = out@;
            out.insert(place, x);
            proof {
                assert forall|j: int| 0 <= j < out@.len() implies items@.contains(
                    #[trigger] out@[j],
                ) by {
                    if j < place {
                        assert(out@[j] == before[j]);
                    } else if j > place {
                        assert(out@[j] == before[j - 1]);
                    }
                }
                assert forall|i: int, j: int| 0 <= i < j < out@.len() implies out@[i].value()
                    < out@[j].value() by {
                    let a = if i < place { i } else { i - 1 };
                    let b = if j < place { j } else { j - 1 };
                    if i != place && j != place {
                        assert(out@[i] == before[a] && out@[j] == before[b]);
                    } else if i == place {
                        assert(out@[j] == before[b]);
                        assert(before[b].value() >= x.value());
                        assert(before[place as int].value() != x.value());
                        assert(before[place as int].value() <= before[b].value());
                    } else {
                        assert(out@[i] == before[a]);
                    }
                }
            }
        }
        k = k + 1;
    }
    proof {
        assert(items@.take(k as int) =~= items@);
    }
    out
}

} // verus!
