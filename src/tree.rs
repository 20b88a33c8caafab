//! The search tree that the sort builds: each node owns its value and its two
//! subtrees, and a value goes to the lesser side exactly when it compares as
//! less than the node's value.
use vstd::prelude::*;
use crate::compare::{consistent, le, lemma_le_lt, lemma_lt_le, lemma_not_lt, lt, sorted_by, Comparable};

verus! {

/// A node of the tree, with the subtree of values that sorted before it and
/// the subtree of values that did not.
pub struct Element<T: Comparable> {
    pub value: T,
    pub lesser: Option<Box<Element<T>>>,
    pub greater: Option<Box<Element<T>>>,
}

/// A node on the way down from the root, with the slot that was followed
/// emptied, and whether that slot was the lesser one.
type Frame<T> = (Box<Element<T>>, bool);

impl<T: Comparable> Element<T> {
    /// The values of the tree in order: lesser subtree, own value, greater
    /// subtree.
    pub open spec fn items(self) -> Seq<T>
        decreases self,
    {
        Self::opt_items(self.lesser) + seq![self.value] + Self::opt_items(self.greater)
    }

    /// The values of a subtree that may be absent.
    pub open spec fn opt_items(t: Option<Box<Element<T>>>) -> Seq<T>
        decreases t,
    {
        match t {
            None => Seq::empty(),
            Some(n) => n.items(),
        }
    }

    /// A tree of one node.
    pub open spec fn leaf(v: T) -> Element<T> {
        Element { value: v, lesser: None, greater: None }
    }

    /// The tree after `x` is put in place.
    pub open spec fn inserted(self, x: T) -> Element<T>
        decreases self,
    {
        if lt(x, self.value) {
            Element {
                value: self.value,
                lesser: Some(Box::new(Self::opt_inserted(self.lesser, x))),
                greater: self.greater,
            }
        } else {
            Element {
                value: self.value,
                lesser: self.lesser,
                greater: Some(Box::new(Self::opt_inserted(self.greater, x))),
            }
        }
    }

    /// The subtree after `x` is put in place, where it may have been absent.
    pub open spec fn opt_inserted(t: Option<Box<Element<T>>>, x: T) -> Element<T>
        decreases t,
    {
        match t {
            None => Self::leaf(x),
            Some(n) => n.inserted(x),
        }
    }

    /// Every value of the lesser subtree compares as less than the node's
    /// value, every value of the greater subtree does not, and so on down.
    pub open spec fn ordered(self) -> bool
        decreases self,
    {
        &&& forall|i: int|
            0 <= i < Self::opt_items(self.lesser).len() ==> lt(
                #[trigger] Self::opt_items(self.lesser)[i],
                self.value,
            )
        &&& forall|i: int|
            0 <= i < Self::opt_items(self.greater).len() ==> !lt(
                #[trigger] Self::opt_items(self.greater)[i],
                self.value,
            )
        &&& match self.lesser {
            Some(l) => l.ordered(),
            None => true,
        }
        &&& match self.greater {
            Some(g) => g.ordered(),
            None => true,
        }
    }

    /// A tree of the one value `val`.
    pub fn new(val: T) -> (r: Element<T>)
        ensures
            r == Self::leaf(val),
    {
        Element { value: val, lesser: None, greater: None }
    }

    /// Puts `val` in place: left of a node whose value it compares as less
    /// than, right of any other. Walks down without recursion, so that a
    /// deep tree costs no stack.
    pub fn add(&mut self, val: T)
        ensures
            *final(self) == old(self).inserted(val),
    {
        let left = val.compare(&self.value) < 0;
        let child = if left {
            self.lesser.take()
        } else {
            self.greater.take()
        };
        let sub = match child {
            None => Box::new(Element::new(val)),
            Some(c) => insert_into(c, val),
        };
        if left {
            self.lesser = Some(sub);
        } else {
            self.greater = Some(sub);
        }
    }
}

/// Putting `x` in place inserts it somewhere among the values of the tree,
/// which keep their order; the result is where. In an ordered tree under a
/// consistent comparator, that is after every value that `x` does not sort
/// before, and before every value that it does.
pub proof fn lemma_inserted_items<T: Comparable>(t: Element<T>, x: T) -> (k: int)
    ensures
        0 <= k <= t.items().len(),
        t.inserted(x).items() == t.items().insert(k, x),
        consistent::<T>() && t.ordered() ==> {
            &&& forall|j: int| 0 <= j < k ==> !lt(x, #[trigger] t.items()[j])
            &&& forall|j: int| k <= j < t.items().len() ==> lt(x, #[trigger] t.items()[j])
        },
    decreases t,
{
    let ls = Element::opt_items(t.lesser);
    let gs = Element::opt_items(t.greater);
    if lt(x, t.value) {
        let k = match t.lesser {
            Some(l) => lemma_inserted_items(*l, x),
            None => 0,
        };
        let sub = Element::opt_inserted(t.lesser, x);
        assert(sub.items() =~= ls.insert(k, x));
        assert(t.inserted(x).items() == sub.items() + seq![t.value] + gs);
        assert(t.inserted(x).items() =~= t.items().insert(k, x));
        if consistent::<T>() && t.ordered() {
            let s = t.items();
            assert forall|j: int| k <= j < s.len() implies lt(x, #[trigger] s[j]) by {
                if j > ls.len() {
                    let g = gs[j - ls.len() - 1];
                    assert(s[j] == g);
                    lemma_not_lt(g, t.value);
                    lemma_lt_le(x, t.value, g);
                } else if j < ls.len() {
                    assert(s[j] == ls[j]);
                }
            }
            assert forall|j: int| 0 <= j < k implies !lt(x, #[trigger] s[j]) by {
                assert(s[j] == ls[j]);
            }
        }
        k
    } else {
        let j = match t.greater {
            Some(g) => lemma_inserted_items(*g, x),
            None => 0,
        };
        let sub = Element::opt_inserted(t.greater, x);
        assert(sub.items() =~= gs.insert(j, x));
        assert(t.inserted(x).items() == ls + seq![t.value] + sub.items());
        let k = ls.len() + 1 + j;
        assert(t.inserted(x).items() =~= t.items().insert(k, x));
        if consistent::<T>() && t.ordered() {
            let s = t.items();
            assert forall|i: int| 0 <= i < k implies !lt(x, #[trigger] s[i]) by {
                if i < ls.len() {
                    let l = ls[i];
                    assert(s[i] == l);
                    lemma_not_lt(x, t.value);
                    lemma_not_lt(x, l);
                    if lt(x, l) {
                        lemma_le_lt(t.value, x, l);
                    }
                } else if i > ls.len() {
                    assert(s[i] == gs[i - ls.len() - 1]);
                }
            }
            assert forall|i: int| k <= i < s.len() implies lt(x, #[trigger] s[i]) by {
                assert(s[i] == gs[i - ls.len() - 1]);
            }
        }
        k
    }
}

/// Putting `x` in place adds exactly `x` to the values of the tree.
pub proof fn lemma_inserted_multiset<T: Comparable>(t: Element<T>, x: T)
    ensures
        t.inserted(x).items().to_multiset() =~= t.items().to_multiset().insert(x),
{
    broadcast use vstd::seq_lib::group_to_multiset_ensures;

    let s = t.items();
    let k = lemma_inserted_items(t, x);
    let front = s.subrange(0, k);
    let back = s.subrange(k, s.len() as int);
    assert(s =~= front + back);
    vstd::seq_lib::lemma_multiset_commutative(front, back);
    vstd::seq_lib::lemma_multiset_commutative(front.push(x), back);
}

/// Putting `x` in place keeps a tree ordered.
pub proof fn lemma_inserted_ordered<T: Comparable>(t: Element<T>, x: T)
    requires
        t.ordered(),
    ensures
        t.inserted(x).ordered(),
    decreases t,
{
    if lt(x, t.value) {
        let old_items = Element::opt_items(t.lesser);
        let k = match t.lesser {
            Some(l) => {
                lemma_inserted_ordered(*l, x);
                lemma_inserted_items(*l, x)
            },
            None => 0,
        };
        let sub = Element::opt_inserted(t.lesser, x);
        let new_items = sub.items();
        assert(new_items == old_items.insert(k, x));
        assert(sub.ordered());
        assert(Element::opt_items(t.inserted(x).lesser) == new_items);
        assert forall|i: int| 0 <= i < new_items.len() implies lt(
            #[trigger] new_items[i],
            t.value,
        ) by {
            if i > k {
                assert(new_items[i] == old_items[i - 1]);
            }
        }
    } else {
        let old_items = Element::opt_items(t.greater);
        let k = match t.greater {
            Some(g) => {
                lemma_inserted_ordered(*g, x);
                lemma_inserted_items(*g, x)
            },
            None => 0,
        };
        let sub = Element::opt_inserted(t.greater, x);
        let new_items = sub.items();
        assert(new_items == old_items.insert(k, x));
        assert(sub.ordered());
        assert(Element::opt_items(t.inserted(x).greater) == new_items);
        assert forall|i: int| 0 <= i < new_items.len() implies !lt(
            #[trigger] new_items[i],
            t.value,
        ) by {
            if i > k {
                assert(new_items[i] == old_items[i - 1]);
            }
        }
    }
}

/// Under a consistent comparator, the values of an ordered tree come out
/// sorted.
pub proof fn lemma_ordered_sorted<T: Comparable>(t: Element<T>)
    requires
        consistent::<T>(),
        t.ordered(),
    ensures
        sorted_by(t.items()),
    decreases t,
{
    let ls = Element::opt_items(t.lesser);
    let gs = Element::opt_items(t.greater);
    match t.lesser {
        Some(l) => lemma_ordered_sorted(*l),
        None => {},
    }
    match t.greater {
        Some(g) => lemma_ordered_sorted(*g),
        None => {},
    }
    let s = t.items();
    assert forall|i: int| 0 <= i < s.len() - 1 implies le(#[trigger] s[i], s[i + 1]) by {
        if i < ls.len() - 1 {
            assert(s[i] == ls[i] && s[i + 1] == ls[i + 1]);
        } else if i == ls.len() - 1 {
            assert(s[i] == ls[i] && s[i + 1] == t.value);
        } else if i == ls.len() {
            assert(s[i] == t.value && s[i + 1] == gs[0]);
            lemma_not_lt(gs[0], t.value);
        } else {
            let j = i - ls.len() - 1;
            assert(s[i] == gs[j] && s[i + 1] == gs[j + 1]);
        }
    }
}

/// The node of a frame with `sub` back in the slot that was followed.
spec fn fill<T: Comparable>(frame: Frame<T>, sub: Element<T>) -> Element<T> {
    if frame.1 {
        Element { value: frame.0.value, lesser: Some(Box::new(sub)), greater: frame.0.greater }
    } else {
        Element { value: frame.0.value, lesser: frame.0.lesser, greater: Some(Box::new(sub)) }
    }
}

/// The whole tree, rebuilt from the way down and the subtree at its end.
spec fn plug<T: Comparable>(path: Seq<Frame<T>>, sub: Element<T>) -> Element<T>
    decreases path.len(),
{
    if path.len() == 0 {
        sub
    } else {
        plug(path.drop_last(), fill(path.last(), sub))
    }
}

/// Puts `val` in place in the tree under `root`: walks down, keeping the
/// nodes passed on a stack of its own, hangs a new leaf, then reattaches the
/// nodes on the way back up.
fn insert_into<T: Comparable>(root: Box<Element<T>>, val: T) -> (r: Box<Element<T>>)
    ensures
        *r == root.inserted(val),
{
    let ghost goal = root.inserted(val);
    let mut path: Vec<Frame<T>> = Vec::new();
    let mut cur = root;
    loop
        invariant_except_break
            plug(path@, cur.inserted(val)) == goal,
        ensures
            plug(path@, *cur) == goal,
        decreases *cur,
    {
        let ghost old_cur = *cur;
        let left = val.compare(&cur.value) < 0;
        let child = if left {
            cur.lesser.take()
        } else {
            cur.greater.take()
        };
        match child {
            Some(c) => {
                proof {
                    assert(fill((cur, left), c.inserted(val)) == old_cur.inserted(val));
                    assert(path@.push((cur, left)).drop_last() =~= path@);
                }
                path.push((cur, left));
                cur = c;
            },
            None => {
                let leaf = Box::new(Element::new(val));
                if left {
                    cur.lesser = Some(leaf);
                } else {
                    cur.greater = Some(leaf);
                }
                break;
            },
        }
    }
    while path.len() > 0
        invariant
            plug(path@, *cur) == goal,
        decreases path.len(),
    {
        let (mut node, left) = path.pop().unwrap();
        if left {
            node.lesser = Some(cur);
        } else {
            node.greater = Some(cur);
        }
        cur = node;
    }
    cur
}

} // verus!
