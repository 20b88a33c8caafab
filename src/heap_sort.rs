//! Sorting a collection by way of the search tree: the first value becomes
//! the root, the others are put in place in their order, and the tree is read
//! back in order.
use vstd::prelude::*;
use crate::compare::{consistent, equiv, le, lemma_equiv_trans, lemma_not_lt, lt, sorted_by};
use crate::flatten::IntoIter;
use crate::tree::{lemma_inserted_items, lemma_inserted_multiset, lemma_inserted_ordered, Element};

pub use crate::compare::Comparable;

verus! {

/// Why a sort did not take place.
#[derive(Debug, Clone, Copy, PartialEq, Eq, Structural)]
pub enum SortError {
    /// There was no value to root the tree at.
    EmptyInput,
}

/// The tree built from `s`: `s[0]` at the root, then each later value put in
/// place in its turn.
pub open spec fn tree_of<T: Comparable>(s: Seq<T>) -> Element<T>
    recommends
        s.len() > 0,
    decreases s.len(),
{
    if s.len() <= 1 {
        Element::leaf(s[0])
    } else {
        tree_of(s.drop_last()).inserted(s.last())
    }
}

/// The values of `s` as the tree built from them gives them back.
pub open spec fn tree_sorted<T: Comparable>(s: Seq<T>) -> Seq<T> {
    if s.len() == 0 {
        Seq::empty()
    } else {
        tree_of(s).items()
    }
}

/// The values of `s` that compare as equal to `c`, in their order in `s`.
pub open spec fn equals_of<T: Comparable>(s: Seq<T>, c: T) -> Seq<T> {
    s.filter(|y: T| equiv(y, c))
}

/// Values that compare as equal stand in `out` in the order they have in
/// `input`.
pub open spec fn keeps_order_of_equals<T: Comparable>(out: Seq<T>, input: Seq<T>) -> bool {
    forall|c: T| #[trigger] equals_of(out, c) == equals_of(input, c)
}

/// A collection that can be taken apart into its values and rebuilt from
/// them, and so sorted.
pub trait Sortable<T: Comparable>: Sized {
    /// The values of the collection, in its order.
    spec fn elements(&self) -> Seq<T>;

    fn into_elements(self) -> (r: Vec<T>)
        ensures
            r@ == self.elements(),
    ;

    fn from_elements(v: Vec<T>) -> (r: Self)
        ensures
            r.elements() == v@,
    ;

    /// Sorts the collection through a search tree. Fails on an empty
    /// collection; otherwise returns the same values, sorted, with equal
    /// values in their first order.
    fn heap_sort(self) -> (r: Result<Self, SortError>)
        ensures
            self.elements().len() == 0 <==> r is Err,
            r matches Err(e) ==> e == SortError::EmptyInput,
            r matches Ok(out) ==> out.elements() == tree_sorted(self.elements()),
            r matches Ok(out) ==> out.elements().len() == self.elements().len()
                && out.elements().to_multiset() == self.elements().to_multiset(),
            r matches Ok(out) ==> (consistent::<T>() ==> sorted_by(out.elements())),
            r matches Ok(out) ==> (consistent::<T>() ==> keeps_order_of_equals(
                out.elements(),
                self.elements(),
            )),
            r matches Ok(out) ==> (consistent::<T>() && sorted_by(self.elements())
                ==> out.elements() == self.elements()),
    {
        let ghost s = self.elements();
        let mut items = self.into_elements();
        let n = items.len();
        if n == 0 {
            return Err(SortError::EmptyInput);
        }
        let mut rev: Vec<T> = Vec::new();
        while items.len() > 0
            invariant
                items@ == s.subrange(0, items@.len() as int),
                rev@.len() == n - items@.len(),
                n == s.len(),
                forall|i: int| 0 <= i < rev@.len() ==> #[trigger] rev@[i] == s[n - 1 - i],
            decreases items@.len(),
        {
            let v = items.pop().unwrap();
            rev.push(v);
        }
        let first = rev.pop().unwrap();
        let mut root = Element::new(first);
        let mut m: usize = 1;
        while rev.len() > 0
            invariant
                n == s.len(),
                1 <= m <= n,
                rev@.len() == n - m,
                forall|i: int| 0 <= i < rev@.len() ==> #[trigger] rev@[i] == s[n - 1 - i],
                root == tree_of(s.subrange(0, m as int)),
            decreases rev@.len(),
        {
            let v = rev.pop().unwrap();
            proof {
                assert(s.subrange(0, m + 1).drop_last() =~= s.subrange(0, m as int));
            }
            root.add(v);
            m = m + 1;
        }
        proof {
            assert(s.subrange(0, n as int) =~= s);
            lemma_tree_of(s);
        }
        let mut it = IntoIter::new(root);
        let mut out: Vec<T> = Vec::new();
        loop
            invariant_except_break
                out@ + it@ == tree_sorted(s),
            ensures
                out@ == tree_sorted(s),
            decreases it@.len(),
        {
            let ghost before = it@;
            match it.next() {
                Some(v) => {
                    proof {
                        assert(out@.push(v) + it@ =~= out@ + before);
                    }
                    out.push(v);
                },
                None => {
                    proof {
                        assert(out@ + it@ =~= out@);
                    }
                    break;
                },
            }
        }
        proof {
            if consistent::<T>() {
                crate::tree::lemma_ordered_sorted(tree_of(s));
                if sorted_by(s) {
                    lemma_tree_of_sorted(s);
                }
            }
        }
        Ok(Self::from_elements(out))
    }
}

impl<T: Comparable> Sortable<T> for Vec<T> {
    open spec fn elements(&self) -> Seq<T> {
        self@
    }

    fn into_elements(self) -> (r: Vec<T>) {
        self
    }

    fn from_elements(v: Vec<T>) -> (r: Self) {
        v
    }
}

/// The tree built from a nonempty sequence is ordered and holds the same
/// values; under a consistent comparator, equal values come out of it in
/// their order in the sequence.
pub proof fn lemma_tree_of<T: Comparable>(s: Seq<T>)
    requires
        s.len() > 0,
    ensures
        tree_of(s).ordered(),
        tree_of(s).items().to_multiset() == s.to_multiset(),
        tree_of(s).items().len() == s.len(),
        consistent::<T>() ==> keeps_order_of_equals(tree_of(s).items(), s),
    decreases s.len(),
{
    broadcast use vstd::seq_lib::group_to_multiset_ensures;

    if s.len() == 1 {
        let t = tree_of(s);
        assert(t.items() =~= s);
        assert(Element::<T>::opt_items(None) =~= Seq::<T>::empty());
    } else {
        let p = s.drop_last();
        let x = s.last();
        assert(p.push(x) =~= s);
        lemma_tree_of(p);
        let t = tree_of(p);
        lemma_inserted_ordered(t, x);
        lemma_inserted_multiset(t, x);
        let k = lemma_inserted_items(t, x);
        let old_items = t.items();
        let new_items = tree_of(s).items();
        if consistent::<T>() {
            let front = old_items.subrange(0, k);
            let back = old_items.subrange(k, old_items.len() as int);
            assert(old_items =~= front + back);
            assert(new_items =~= front.push(x) + back);
            assert forall|c: T| #[trigger] equals_of(new_items, c) == equals_of(s, c) by {
                let pred = |y: T| equiv(y, c);
                assert(equals_of(new_items, c) == new_items.filter(pred));
                assert(equals_of(s, c) == s.filter(pred));
                assert(equals_of(old_items, c) == old_items.filter(pred));
                assert(equals_of(p, c) == p.filter(pred));
                assert(equals_of(old_items, c) == equals_of(p, c));
                p.lemma_filter_push(x, pred);
                front.lemma_filter_push(x, pred);
                Seq::filter_distributes_over_add(front, back, pred);
                Seq::filter_distributes_over_add(front.push(x), back, pred);
                if equiv(x, c) {
                    assert forall|j: int| 0 <= j < back.len() implies !pred(#[trigger] back[j]) by {
                        assert(k + j < old_items.len());
                        assert(back[j] == old_items[k + j]);
                        assert(lt(x, back[j]));
                        if equiv(back[j], c) {
                            lemma_equiv_trans(x, back[j], c);
                        }
                    }
                    assert(back.all(|y: T| !pred(y)));
                    back.lemma_all_neg_filter_empty(pred);
                    assert(back.filter(pred) =~= Seq::<T>::empty());
                    assert(front.filter(pred) + back.filter(pred) =~= front.filter(pred));
                    assert(front.filter(pred).push(x) + back.filter(pred) =~= front.filter(
                        pred,
                    ).push(x));
                } else {
                }
            }
        }
    }
}

/// Under a consistent comparator, every value of a sorted sequence sorts no
/// later than any value after it.
pub proof fn lemma_sorted_le<T: Comparable>(s: Seq<T>, i: int, j: int)
    requires
        consistent::<T>(),
        sorted_by(s),
        0 <= i <= j < s.len(),
    ensures
        le(s[i], s[j]),
    decreases j - i,
{
    if i == j {
        assert(s[i].compare_spec(&s[i]) < 0 <==> s[i].compare_spec(&s[i]) > 0);
    } else {
        lemma_sorted_le(s, i, j - 1);
        assert(le(s[j - 1], s[j]));
        assert(le(s[i], s[j - 1]));
    }
}

/// Under a consistent comparator, the tree gives a sorted sequence back
/// unchanged.
pub proof fn lemma_tree_of_sorted<T: Comparable>(s: Seq<T>)
    requires
        consistent::<T>(),
        sorted_by(s),
        s.len() > 0,
    ensures
        tree_of(s).items() == s,
    decreases s.len(),
{
    if s.len() == 1 {
        assert(tree_of(s).items() =~= s);
    } else {
        let p = s.drop_last();
        let x = s.last();
        assert(sorted_by(p));
        lemma_tree_of_sorted(p);
        lemma_tree_of(p);
        let k = lemma_inserted_items(tree_of(p), x);
        if k < p.len() {
            lemma_sorted_le(s, k, s.len() - 1);
            assert(p[k] == s[k]);
            lemma_not_lt(x, p[k]);
        }
        assert(p.insert(p.len() as int, x) =~= s);
    }
}

} // verus!
