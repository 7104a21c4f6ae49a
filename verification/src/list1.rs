//! A singly linked stack: the first ownership exercise of the repository.

use vstd::prelude::*;

verus! {

type Link<T> = Option<Box<Node<T>>>;

pub struct List<T> {
    head: Link<T>,
}

struct Node<T> {
    elem: T,
    next: Link<T>,
}

spec fn link_view<T>(l: Link<T>) -> Seq<T>
    decreases l,
{
    match l {
        Option::None => Seq::empty(),
        Option::Some(n) => seq![n.elem] + link_view(n.next),
    }
}

impl<T> View for List<T> {
    type V = Seq<T>;

    closed spec fn view(&self) -> Seq<T> {
        link_view(self.head)
    }
}

impl<T> List<T> {
    /// An empty list.
    pub fn new() -> (r: List<T>)
        ensures
            r@ == Seq::<T>::empty(),
    {
        List { head: Option::None }
    }

    /// Pushes a value on the front.
    pub fn push(&mut self, value: T)
        ensures
            final(self)@ == seq![value] + old(self)@,
    {
        let new_head = Box::new(Node::<T> { elem: value, next: self.head.take() });
        self.head = Option::Some(new_head);
    }

    /// Pops the front value, if the list has one.
    pub fn pop(&mut self) -> (r: Option<T>)
        ensures
            old(self)@.len() == 0 ==> r is None && final(self)@ == old(self)@,
            old(self)@.len() > 0 ==> r == Option::Some(old(self)@[0]) && final(self)@ == old(
                self,
            )@.skip(1),
    {
        match self.head.take() {
            Option::None => Option::None,
            Option::Some(node) => {
                let n = *node;
                self.head = n.next;
                proof {
                    assert(old(self)@.skip(1) =~= link_view(n.next));
                }
                Option::Some(n.elem)
            },
        }
    }
}

} // verus!
