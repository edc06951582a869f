//! A stack of boxed nodes, each of which owns the one below it.

use crate::text::{bracket_join, bracketed, displayed, strings_view};
use std::fmt::Display;
use vstd::prelude::*;

verus! {

#[derive(Debug)]
pub struct OkStack<T> {
    head: Link<T>,
    len: usize,
}

#[derive(Debug)]
struct Node<T> {
    pub value: T,
    pub next: Link<T>,
}

type Link<T> = Option<Box<Node<T>>>;

/// The values of a chain of nodes, the first node's value first.
spec fn link_view<T>(link: Link<T>) -> Seq<T>
    decreases link,
{
    match link {
        Some(node) => seq![node.value] + link_view(node.next),
        None => Seq::empty(),
    }
}

impl<T> View for OkStack<T> {
    type V = Seq<T>;

    /// The values on the stack, the top first.
    closed spec fn view(&self) -> Seq<T> {
        link_view(self.head)
    }
}

impl<T> OkStack<T> {
    /// The invariant of a stack: its counter agrees with its nodes.
    pub closed spec fn wf(&self) -> bool {
        self.len == link_view(self.head).len()
    }

    pub fn new() -> (s: Self)
        ensures
            s.wf(),
            s@.len() == 0,
    {
        OkStack { head: None, len: 0 }
    }

    pub fn len(&self) -> (n: usize)
        requires
            self.wf(),
        ensures
            n == self@.len(),
    {
        self.len
    }

    pub fn push(&mut self, value: T)
        requires
            old(self).wf(),
            old(self)@.len() < usize::MAX,
        ensures
            final(self).wf(),
            final(self)@ == seq![value] + old(self)@,
    {
        let old_head = self.head.take();
        let new_head = Node { value, next: old_head };
        self.len += 1;
        self.head = Some(Box::new(new_head));
    }

    pub fn pop(&mut self) -> (r: Option<T>)
        requires
            old(self).wf(),
        ensures
            final(self).wf(),
            match r {
                Some(value) => old(self)@.len() > 0 && value == old(self)@[0] && final(self)@
                    == old(self)@.drop_first(),
                None => old(self)@.len() == 0 && final(self)@ == old(self)@,
            },
    {
        match self.head.take() {
            Some(head) => {
                let node = *head;
                self.len -= 1;
                self.head = node.next;
                proof {
                    assert(old(self)@.drop_first() =~= link_view(node.next));
                }
                Some(node.value)
            },
            None => None,
        }
    }

    pub fn peek(&self) -> (r: Option<&T>)
        ensures
            match r {
                Some(value) => self@.len() > 0 && *value == self@[0],
                None => self@.len() == 0,
            },
    {
        match &self.head {
            Some(node) => Some(&node.value),
            None => None,
        }
    }

    pub fn peek_mut(&mut self) -> (r: Option<&mut T>)
        requires
            old(self).wf(),
        ensures
            final(self).wf(),
            match r {
                Some(value) => old(self)@.len() > 0 && *value == old(self)@[0] && final(self)@
                    == old(self)@.update(0, *final(value)),
                None => old(self)@.len() == 0 && final(self)@ == old(self)@,
            },
    {
        match &mut self.head {
            Some(node) => {
                proof {
                    assert forall|v: T|
                        (seq![v] + link_view(node.next)) =~= (seq![node.value] + link_view(
                            node.next,
                        )).update(0, v) by {}
                }
                Some(&mut node.value)
            },
            None => None,
        }
    }

    pub fn into_iter(self) -> (it: IntoIter<T>)
        requires
            self.wf(),
        ensures
            it.wf(),
            it@ == self@,
    {
        IntoIter(self)
    }

    pub fn iter(&self) -> (it: Iter<'_, T>)
        ensures
            it@ == self@,
    {
        match &self.head {
            Some(node) => Iter(Some(&**node)),
            None => Iter(None),
        }
    }

    /// An iterator through which the values can be changed in place.
    pub fn iter_mut(&mut self) -> (it: IterMut<'_, T>)
        ensures
            it@ == old(self)@,
    {
        match &mut self.head {
            Some(node) => IterMut(Some(&mut **node)),
            None => IterMut(None),
        }
    }
}

impl<T> Drop for OkStack<T> {
    /// Takes the nodes apart one by one, so that a long stack is dropped
    /// without deep recursion.
    fn drop(&mut self)
        opens_invariants none
        no_unwind
    {
        let mut curr: Link<T> = None;
        std::mem::swap(&mut self.head, &mut curr);
        loop
            decreases link_view(curr).len(),
        {
            match curr {
                Some(mut boxed_node) => {
                    let mut next: Link<T> = None;
                    std::mem::swap(&mut boxed_node.next, &mut next);
                    curr = next;
                },
                None => {
                    break;
                },
            }
        }
    }
}

impl<T: Display> OkStack<T> {
    /// The stack as it is printed: the values from the top down, between
    /// square brackets.
    pub fn to_string(&self) -> (s: String)
        ensures
            exists|parts: Seq<String>|
                displayed(self@, parts) && s@ == bracketed(strings_view(parts)),
    {
        let mut parts: Vec<String> = Vec::new();
        let mut it = self.iter();
        loop
            invariant
                parts@.len() + it@.len() == self@.len(),
                it@ == self@.skip(parts@.len() as int),
                displayed(self@.take(parts@.len() as int), parts@),
            ensures
                it@.len() == 0,
            decreases it@.len(),
        {
            let ghost before = it@;
            match it.next() {
                Some(value) => {
                    let ghost done = parts@;
                    parts.push(value.to_string());
                    proof {
                        assert(it@ =~= self@.skip(parts@.len() as int));
                        assert(self@[done.len() as int] == before[0]);
                    }
                },
                None => {
                    break;
                },
            }
        }
        proof {
            assert(self@.take(parts@.len() as int) =~= self@);
        }
        bracket_join(&parts)
    }
}

/// An iterator that takes the values off a stack, the top first.
pub struct IntoIter<T>(OkStack<T>);

impl<T> View for IntoIter<T> {
    type V = Seq<T>;

    /// The values that the iterator has yet to yield.
    closed spec fn view(&self) -> Seq<T> {
        self.0@
    }
}

impl<T> IntoIter<T> {
    /// The invariant of the iterator: that of the stack it took.
    pub closed spec fn wf(&self) -> bool {
        self.0.wf()
    }

    pub fn next(&mut self) -> (r: Option<T>)
        requires
            old(self).wf(),
        ensures
            final(self).wf(),
            match r {
                Some(value) => old(self)@.len() > 0 && value == old(self)@[0] && final(self)@
                    == old(self)@.drop_first(),
                None => old(self)@.len() == 0 && final(self)@ == old(self)@,
            },
    {
        self.0.pop()
    }
}

/// An iterator over the values of a stack, the top first.
pub struct Iter<'a, T>(Option<&'a Node<T>>);

impl<'a, T> View for Iter<'a, T> {
    type V = Seq<T>;

    /// The values that the iterator has yet to yield.
    closed spec fn view(&self) -> Seq<T> {
        match self.0 {
            Some(node) => seq![node.value] + link_view(node.next),
            None => Seq::empty(),
        }
    }
}

impl<'a, T> Iter<'a, T> {
    pub fn next(&mut self) -> (r: Option<&'a T>)
        ensures
            match r {
                Some(value) => old(self)@.len() > 0 && *value == old(self)@[0] && final(self)@
                    == old(self)@.drop_first(),
                None => old(self)@.len() == 0 && final(self)@ == old(self)@,
            },
    {
        match self.0 {
            Some(node) => {
                self.0 = match &node.next {
                    Some(next) => Some(&**next),
                    None => None,
                };
                proof {
                    assert(old(self)@.drop_first() =~= link_view(node.next));
                }
                Some(&node.value)
            },
            None => None,
        }
    }
}

/// An iterator over the values of a stack, the top first, that lets each
/// value be changed.
pub struct IterMut<'a, T>(Option<&'a mut Node<T>>);

impl<'a, T> View for IterMut<'a, T> {
    type V = Seq<T>;

    /// The values that the iterator has yet to yield.
    closed spec fn view(&self) -> Seq<T> {
        match self.0 {
            Some(node) => seq![node.value] + link_view(node.next),
            None => Seq::empty(),
        }
    }
}

impl<'a, T> IterMut<'a, T> {
    pub fn next(&mut self) -> (r: Option<&'a mut T>)
        ensures
            match r {
                Some(value) => old(self)@.len() > 0 && *value == old(self)@[0] && final(self)@
                    == old(self)@.drop_first(),
                None => old(self)@.len() == 0 && final(self)@ == old(self)@,
            },
    {
        match self.0.take() {
            Some(node) => {
                self.0 = match &mut node.next {
                    Some(next) => Some(&mut **next),
                    None => None,
                };
                proof {
                    assert(old(self)@.drop_first() =~= self@);
                }
                Some(&mut node.value)
            },
            None => None,
        }
    }
}

} // verus!
