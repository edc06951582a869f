//! A cons list: each cell owns the rest of the list in a box.

use crate::text::{bracket_join, bracketed, displayed, strings_view};
use std::fmt::Display;
use vstd::prelude::*;

verus! {

#[derive(Debug)]
pub enum List<T> {
    Cons(T, Box<List<T>>),
    Nil,
}

/// The values of a list, the first cell's value first.
pub open spec fn list_view<T>(list: List<T>) -> Seq<T>
    decreases list,
{
    match list {
        List::Cons(value, next) => seq![value] + list_view(*next),
        List::Nil => Seq::empty(),
    }
}

impl<T> View for List<T> {
    type V = Seq<T>;

    open spec fn view(&self) -> Seq<T> {
        list_view(*self)
    }
}

/// An iterator over the values of a list, from the first cell on.
pub struct ListIterator<'a, T> {
    current: &'a List<T>,
}

impl<'a, T> View for ListIterator<'a, T> {
    type V = Seq<T>;

    /// The values that the iterator has yet to yield.
    closed spec fn view(&self) -> Seq<T> {
        self.current@
    }
}

impl<'a, T> ListIterator<'a, T> {
    pub fn next(&mut self) -> (r: Option<&'a T>)
        ensures
            match r {
                Some(value) => old(self)@.len() > 0 && *value == old(self)@[0] && final(self)@
                    == old(self)@.drop_first(),
                None => old(self)@.len() == 0 && final(self)@ == old(self)@,
            },
    {
        match self.current {
            List::Cons(val, next) => {
                self.current = &**next;
                proof {
                    assert(old(self)@.drop_first() =~= next@);
                }
                Some(val)
            },
            List::Nil => None,
        }
    }
}

impl<T> List<T> {
    pub fn iter(&self) -> (it: ListIterator<'_, T>)
        ensures
            it@ == self@,
    {
        ListIterator { current: self }
    }

    /// Appends `val` behind the last value.
    pub fn add(&mut self, val: T)
        ensures
            final(self)@ == old(self)@.push(val),
        decreases old(self)@.len(),
    {
        match self {
            List::Cons(_, next) => {
                next.add(val);
                proof {
                    assert(final(self)@ =~= old(self)@.push(val));
                }
            },
            List::Nil => {
                *self = List::Cons(val, Box::new(List::Nil));
                proof {
                    assert(self@ =~= old(self)@.push(val));
                }
            },
        }
    }

    /// Takes the last value off the list.
    pub fn pop(&mut self) -> (r: Option<T>)
        ensures
            match r {
                Some(value) => old(self)@.len() > 0 && value == old(self)@.last() && final(self)@
                    == old(self)@.drop_last(),
                None => old(self)@.len() == 0 && final(self)@ == old(self)@,
            },
        decreases old(self)@.len(),
    {
        match self {
            List::Cons(_, next) => {
                if next.is_nil() {
                    let mut last_item = List::Nil;
                    std::mem::swap(self, &mut last_item);
                    match last_item {
                        List::Cons(val, _) => {
                            proof {
                                assert(self@ =~= old(self)@.drop_last());
                            }
                            Some(val)
                        },
                        List::Nil => None,
                    }
                } else {
                    let r = next.pop();
                    proof {
                        assert(final(self)@ =~= old(self)@.drop_last());
                    }
                    r
                }
            },
            List::Nil => None,
        }
    }

    /// Whether the list is empty.
    pub fn is_nil(&self) -> (b: bool)
        ensures
            b == (self@.len() == 0),
    {
        if let List::Nil = self {
            true
        } else {
            false
        }
    }

    /// The first value.
    pub fn peek(&self) -> (r: Option<&T>)
        ensures
            match r {
                Some(value) => self@.len() > 0 && *value == self@[0],
                None => self@.len() == 0,
            },
    {
        match self {
            List::Cons(value, _) => Some(value),
            List::Nil => None,
        }
    }
}

impl<T: Display> List<T> {
    /// The list as it is printed: the values in order, between square brackets.
    pub fn to_string(&self) -> (s: String)
        ensures
            exists|parts: Seq<String>|
                displayed(self@, parts) && s@ == bracketed(strings_view(parts)),
    {
        let mut parts: Vec<String> = Vec::new();
        let mut it = self.iter();
        loop
            invariant
                parts@.len() + it@.len() == self@.len(),
                it@ == self@.skip(parts@.len() as int),
                displayed(self@.take(parts@.len() as int), parts@),
            ensures
                it@.len() == 0,
            decreases it@.len(),
        {
            let ghost before = it@;
            match it.next() {
                Some(value) => {
                    let ghost done = parts@;
                    parts.push(value.to_string());
                    proof {
                        assert(it@ =~= self@.skip(parts@.len() as int));
                        assert(self@[done.len() as int] == before[0]);
                    }
                },
                None => {
                    break;
                },
            }
        }
        proof {
            assert(self@.take(parts@.len() as int) =~= self@);
        }
        bracket_join(&parts)
    }
}

} // verus!
