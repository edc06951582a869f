//! A persistent stack: stacks share the nodes that they have in common.

use crate::text::{bracket_join, bracketed, displayed, strings_view};
use std::fmt::Display;
use std::rc::Rc;
use vstd::prelude::*;

verus! {

#[derive(Debug)]
pub struct ImmutableStack<T> {
    head: Link<T>,
    len: usize,
}

#[derive(Debug)]
struct Node<T> {
    pub value: T,
    pub next: Link<T>,
}

type Link<T> = Option<Rc<Node<T>>>;

/// The values of a chain of nodes, the first node's value first.
spec fn link_view<T>(link: Link<T>) -> Seq<T>
    decreases link,
{
    match link {
        Some(node) => seq![node.value] + link_view(node.next),
        None => Seq::empty(),
    }
}

impl<T> View for ImmutableStack<T> {
    type V = Seq<T>;

    /// The values on the stack, the top first.
    closed spec fn view(&self) -> Seq<T> {
        link_view(self.head)
    }
}

fn clone_link<T>(link: &Link<T>) -> (r: Link<T>)
    ensures
        r == *link,
{
    match link {
        Some(node) => Some(Rc::clone(node)),
        None => None,
    }
}

impl<T> ImmutableStack<T> {
    /// The invariant of a stack: its counter agrees with its nodes.
    pub closed spec fn wf(&self) -> bool {
        self.len == link_view(self.head).len()
    }

    pub fn new() -> (s: Self)
        ensures
            s.wf(),
            s@.len() == 0,
    {
        ImmutableStack { head: None, len: 0 }
    }

    pub fn len(&self) -> (n: usize)
        requires
            self.wf(),
        ensures
            n == self@.len(),
    {
        self.len
    }

    pub fn is_empty(&self) -> (b: bool)
        requires
            self.wf(),
        ensures
            b == (self@.len() == 0),
    {
        self.len == 0
    }

    /// A stack with `value` on top of the values of this one.
    pub fn prepend(&self, value: T) -> (s: ImmutableStack<T>)
        requires
            self.wf(),
            self@.len() < usize::MAX,
        ensures
            s.wf(),
            s@ == seq![value] + self@,
    {
        let new_node = Node { value, next: clone_link(&self.head) };
        ImmutableStack { head: Some(Rc::new(new_node)), len: self.len + 1 }
    }

    /// A stack with the values of this one but the top. The tail of an empty
    /// stack is empty.
    pub fn tail(&self) -> (s: ImmutableStack<T>)
        requires
            self.wf(),
        ensures
            s.wf(),
            s@ == if self@.len() == 0 {
                self@
            } else {
                self@.drop_first()
            },
    {
        let tail = match &self.head {
            Some(node) => clone_link(&node.next),
            None => None,
        };
        proof {
            if self@.len() > 0 {
                assert(self@.drop_first() =~= link_view(tail));
            }
        }
        ImmutableStack { head: tail, len: self.len.saturating_sub(1) }
    }

    pub fn head(&self) -> (r: Option<&T>)
        ensures
            match r {
                Some(value) => self@.len() > 0 && *value == self@[0],
                None => self@.len() == 0,
            },
    {
        match &self.head {
            Some(node) => Some(&node.value),
            None => None,
        }
    }

    pub fn iter(&self) -> (it: Iter<'_, T>)
        ensures
            it@ == self@,
    {
        match &self.head {
            Some(node) => Iter(Some(&**node)),
            None => Iter(None),
        }
    }
}

impl<T> Default for ImmutableStack<T> {
    fn default() -> (s: Self)
        ensures
            s.wf(),
            s@.len() == 0,
    {
        Self::new()
    }
}

impl<T: Display> ImmutableStack<T> {
    /// The stack as it is printed: the values from the top down, between
    /// square brackets.
    pub fn to_string(&self) -> (s: String)
        ensures
            exists|parts: Seq<String>|
                displayed(self@, parts) && s@ == bracketed(strings_view(parts)),
    {
        let mut parts: Vec<String> = Vec::new();
        let mut it = self.iter();
        loop
            invariant
                parts@.len() + it@.len() == self@.len(),
                it@ == self@.skip(parts@.len() as int),
                displayed(self@.take(parts@.len() as int), parts@),
            ensures
                it@.len() == 0,
            decreases it@.len(),
        {
            let ghost before = it@;
            match it.next() {
                Some(value) => {
                    let ghost done = parts@;
                    parts.push(value.to_string());
                    proof {
                        assert(it@ =~= self@.skip(parts@.len() as int));
                        assert(self@[done.len() as int] == before[0]);
                    }
                },
                None => {
                    break;
                },
            }
        }
        proof {
            assert(self@.take(parts@.len() as int) =~= self@);
        }
        bracket_join(&parts)
    }
}

/// An iterator over the values of a stack, the top first.
pub struct Iter<'a, T>(Option<&'a Node<T>>);

impl<'a, T> View for Iter<'a, T> {
    type V = Seq<T>;

    /// The values that the iterator has yet to yield.
    closed spec fn view(&self) -> Seq<T> {
        match self.0 {
            Some(node) => seq![node.value] + link_view(node.next),
            None => Seq::empty(),
        }
    }
}

impl<'a, T> Iter<'a, T> {
    pub fn next(&mut self) -> (r: Option<&'a T>)
        ensures
            match r {
                Some(value) => old(self)@.len() > 0 && *value == old(self)@[0] && final(self)@
                    == old(self)@.drop_first(),
                None => old(self)@.len() == 0 && final(self)@ == old(self)@,
            },
    {
        match self.0 {
            Some(node) => {
                self.0 = match &node.next {
                    Some(next) => Some(&**next),
                    None => None,
                };
                proof {
                    assert(old(self)@.drop_first() =~= link_view(node.next));
                }
                Some(&node.value)
            },
            None => None,
        }
    }
}

} // verus!
