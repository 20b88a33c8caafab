//! Three-way comparison of values, and what it takes for a comparator to
//! order values consistently.
use vstd::prelude::*;

verus! {

/// A three-way comparison: `x.compare(y)` is negative when `x` sorts before
/// `y`, zero when the two are equal, and positive when `x` sorts after `y`.
pub trait Comparable: Sized {
    /// The value that `compare` returns for `self` against `other`.
    spec fn compare_spec(&self, other: &Self) -> i64;

    fn compare(&self, other: &Self) -> (r: i64)
        ensures
            r == self.compare_spec(other),
    ;
}

/// `a` sorts before `b`.
pub open spec fn lt<T: Comparable>(a: T, b: T) -> bool {
    a.compare_spec(&b) < 0
}

/// `a` sorts before `b` or is equal to it.
pub open spec fn le<T: Comparable>(a: T, b: T) -> bool {
    a.compare_spec(&b) <= 0
}

/// `a` and `b` compare as equal.
pub open spec fn equiv<T: Comparable>(a: T, b: T) -> bool {
    a.compare_spec(&b) == 0
}

/// The comparator is antisymmetric and transitive, that is, a total preorder.
pub open spec fn consistent<T: Comparable>() -> bool {
    &&& forall|a: T, b: T|
        (#[trigger] a.compare_spec(&b) < 0 <==> b.compare_spec(&a) > 0)
        && (a.compare_spec(&b) == 0 <==> #[trigger] b.compare_spec(&a) == 0)
    &&& forall|a: T, b: T, c: T|
        #[trigger] le(a, b) && #[trigger] le(b, c) ==> le(a, c)
}

/// Under a consistent comparator, a value that does not sort before
/// another sorts after it or is equal to it.
pub proof fn lemma_not_lt<T: Comparable>(a: T, b: T)
    requires
        consistent::<T>(),
    ensures
        !lt(a, b) <==> le(b, a),
{
    assert(a.compare_spec(&b) < 0 <==> b.compare_spec(&a) > 0);
}

/// Under a consistent comparator, `a < b <= c` gives `a < c`.
pub proof fn lemma_lt_le<T: Comparable>(a: T, b: T, c: T)
    requires
        consistent::<T>(),
        lt(a, b),
        le(b, c),
    ensures
        lt(a, c),
{
    lemma_not_lt(a, c);
    lemma_not_lt(a, b);
    if !lt(a, c) {
        assert(le(b, c) && le(c, a));
    }
}

/// Under a consistent comparator, `a <= b < c` gives `a < c`.
pub proof fn lemma_le_lt<T: Comparable>(a: T, b: T, c: T)
    requires
        consistent::<T>(),
        le(a, b),
        lt(b, c),
    ensures
        lt(a, c),
{
    lemma_not_lt(a, c);
    lemma_not_lt(b, c);
    if !lt(a, c) {
        assert(le(c, a) && le(a, b));
    }
}

/// Under a consistent comparator, two values equal to a third are equal to
/// each other.
pub proof fn lemma_equiv_trans<T: Comparable>(a: T, b: T, c: T)
    requires
        consistent::<T>(),
        equiv(a, c),
        equiv(b, c),
    ensures
        equiv(a, b),
{
    assert(equiv(c, b) && equiv(c, a));
    assert(le(a, c) && le(c, b));
    assert(le(b, c) && le(c, a));
}

/// Every element sorts no later than the one after it.
pub open spec fn sorted_by<T: Comparable>(s: Seq<T>) -> bool {
    forall|i: int| 0 <= i < s.len() - 1 ==> le(#[trigger] s[i], s[i + 1])
}

impl Comparable for i32 {
    open spec fn compare_spec(&self, other: &i32) -> i64 {
        if *self == *other {
            0
        } else if *self > *other {
            1
        } else {
            -1i64
        }
    }

    fn compare(&self, other: &i32) -> (r: i64) {
        if self == other {
            0
        } else if self > other {
            1
        } else {
            -1
        }
    }
}

/// The natural order of `i32` is a consistent comparator.
pub proof fn lemma_i32_consistent()
    ensures
        consistent::<i32>(),
{
}

/// Each element compares as not less than the one before it.
pub open spec fn ascending<T: Comparable>(s: Seq<T>) -> bool {
    forall|i: int| 0 < i < s.len() ==> #[trigger] s[i].compare_spec(&s[i - 1]) >= 0
}

/// Whether each element compares as not less than the one before it.
pub fn is_sorted<T: Comparable>(col: &[T]) -> (r: bool)
    ensures
        r == ascending(col@),
{
    let n = col.len();
    if n == 0 {
        return true;
    }
    let mut i: usize = 1;
    while i < n
        invariant
            n == col@.len(),
            1 <= i <= n,
            forall|k: int| 0 < k < i ==> #[trigger] col@[k].compare_spec(&col@[k - 1]) >= 0,
        decreases n - i,
    {
        if col[i].compare(&col[i - 1]) < 0 {
            return false;
        }
        i = i + 1;
    }
    true
}

} // verus!
