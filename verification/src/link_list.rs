//! A singly linked list used as a stack: values push onto and pop off
//! the head. The view is the sequence of values from head to tail.

use vstd::prelude::*;

verus! {

/// One cell of the list.
pub struct Node<T> {
    value: T,
    next: Option<Box<Node<T>>>,
}

/// The list itself: a link to the head cell.
pub struct List<T> {
    head: Option<Box<Node<T>>>,
}

impl<T> List<T> {
    /// The values from `link` onward, head first.
    pub closed spec fn seq_of(link: Option<Box<Node<T>>>) -> Seq<T>
        decreases link,
    {
        match link {
            None => Seq::empty(),
            Some(node) => seq![node.value] + List::seq_of(node.next),
        }
    }
}

impl<T> View for List<T> {
    type V = Seq<T>;

    closed spec fn view(&self) -> Seq<T> {
        List::seq_of(self.head)
    }
}

impl<T> List<T> {
    pub fn new() -> (r: Self)
        ensures
            r@ == Seq::<T>::empty(),
    {
        List { head: None }
    }

    /// Puts `value` in front of everything already held.
    pub fn push(&mut self, value: T)
        ensures
            final(self)@ == seq![value] + old(self)@,
    {
        let mut new_head = Box::new(Node { value, next: None });
        if let Some(old_head) = self.head.take() {
            new_head.next = Some(old_head);
        }
        self.head = Some(new_head);
    }

    /// Takes the front value out, if there is one.
    pub fn pop(&mut self) -> (r: Option<T>)
        ensures
            old(self)@.len() == 0 ==> r is None && final(self)@ == old(self)@,
            old(self)@.len() > 0 ==> r == Some(old(self)@[0]) && final(self)@ == old(
                self,
            )@.drop_first(),
    {
        match self.head.take() {
            None => None,
            Some(head) => {
                proof {
                    assert(old(self)@.drop_first() =~= List::seq_of(head.next));
                }
                self.head = head.next;
                Some(head.value)
            },
        }
    }

    /// Turns the list into a consuming iterator over its values.
    pub fn into_iter(self) -> (r: IntoIter<T>)
        ensures
            r@ == self@,
    {
        IntoIter(self)
    }
}

/// Yields a list's values front to back, consuming them.
pub struct IntoIter<T>(List<T>);

impl<T> View for IntoIter<T> {
    type V = Seq<T>;

    closed spec fn view(&self) -> Seq<T> {
        self.0@
    }
}

impl<T> IntoIter<T> {
    /// The next value still to come, if any.
    pub fn next(&mut self) -> (r: Option<T>)
        ensures
            old(self)@.len() == 0 ==> r is None && final(self)@ == old(self)@,
            old(self)@.len() > 0 ==> r == Some(old(self)@[0]) && final(self)@ == old(
                self,
            )@.drop_first(),
    {
        self.0.pop()
    }
}

} // verus!
