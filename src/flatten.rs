//! Reading a tree back as a sequence: an in-order walk that consumes the
//! tree node by node, with an explicit stack in place of recursion.
use vstd::prelude::*;
use std::collections::VecDeque;
use crate::compare::Comparable;
use crate::tree::Element;

verus! {

/// The values of a consumed tree, in order, handed out front first.
pub struct IntoIter<T: Comparable> {
    values: VecDeque<T>,
}

/// A value still to be emitted, followed by the subtree that comes after it.
type Pending<T> = (T, Option<Box<Element<T>>>);

/// What the stack still holds, top first.
spec fn pending_items<T: Comparable>(stack: Seq<Pending<T>>) -> Seq<T>
    decreases stack.len(),
{
    if stack.len() == 0 {
        Seq::empty()
    } else {
        seq![stack.last().0] + Element::opt_items(stack.last().1) + pending_items(
            stack.drop_last(),
        )
    }
}

impl<T: Comparable> View for IntoIter<T> {
    type V = Seq<T>;

    /// The values not yet handed out, in the order they will come.
    closed spec fn view(&self) -> Seq<T> {
        self.values@
    }
}

impl<T: Comparable> IntoIter<T> {
    /// Takes the tree apart into its values, in order.
    pub fn new(root: Element<T>) -> (r: IntoIter<T>)
        ensures
            r@ == root.items(),
    {
        let mut it = IntoIter { values: VecDeque::new() };
        it.build_rec(root);
        proof {
            assert(Seq::<T>::empty() + root.items() =~= root.items());
        }
        it
    }

    /// Appends the values of the tree rooted at `elem`, in order: the lesser
    /// subtree, the node's own value, the greater subtree. The walk keeps its
    /// own stack, so a degenerate tree of any depth costs no call stack.
    pub fn build_rec(&mut self, elem: Element<T>)
        ensures
            final(self)@ == old(self)@ + elem.items(),
    {
        let mut stack: Vec<Pending<T>> = Vec::new();
        let Element { value, lesser, greater } = elem;
        stack.push((value, greater));
        let mut cur = lesser;
        proof {
            assert(pending_items(stack@.drop_last()) =~= Seq::<T>::empty());
            assert(Element::opt_items(cur) + pending_items(stack@) =~= elem.items());
        }
        loop
            invariant_except_break
                self.values@ + Element::opt_items(cur) + pending_items(stack@) == old(self)@
                    + elem.items(),
            ensures
                self.values@ == old(self)@ + elem.items(),
            decreases
                Element::opt_items(cur).len() + pending_items(stack@).len(),
                Element::opt_items(cur).len(),
        {
            let ghost old_values = self.values@;
            let ghost old_stack = stack@;
            match cur {
                Some(node) => {
                    let Element { value, lesser, greater } = *node;
                    proof {
                        assert(stack@.push((value, greater)).drop_last() =~= stack@);
                    }
                    stack.push((value, greater));
                    cur = lesser;
                    proof {
                        assert(self.values@ + Element::opt_items(cur) + pending_items(stack@)
                            =~= self.values@ + node.items() + pending_items(stack@.drop_last()));
                    }
                },
                None => {
                    match stack.pop() {
                        Some((v, g)) => {
                            self.values.push_back(v);
                            cur = g;
                            proof {
                                assert(self.values@ + Element::opt_items(cur) + pending_items(
                                    stack@,
                                ) =~= old_values + pending_items(old_stack));
                            }
                        },
                        None => {
                            proof {
                                assert(self.values@ + Element::opt_items(cur) + pending_items(
                                    stack@,
                                ) =~= self.values@);
                            }
                            break;
                        },
                    }
                },
            }
        }
    }

    /// Hands out the next value, or `None` once all have been handed out.
    pub fn next(&mut self) -> (r: Option<T>)
        ensures
            old(self)@.len() == 0 ==> r is None && final(self)@ == old(self)@,
            old(self)@.len() > 0 ==> r == Some(old(self)@[0]) && final(self)@ == old(
                self,
            )@.drop_first(),
    {
        self.values.pop_front()
    }
}

} // verus!
