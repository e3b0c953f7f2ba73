use crate::green::node::{Element, Node};
use crate::green::token::Token;
use crate::utils::{NodeOrToken, TextSize};
use std::sync::Arc;
use vstd::prelude::*;

verus! {

use crate::green::node::is_borrow_of;

/// Children elements of a node in the immutable green tree.
///
/// The iterator is a cheap copy of a slice borrowed from the parent node; it
/// can be walked from the front with [`next`](Children::next), from the back
/// with [`next_back`](Children::next_back), and accessed randomly in constant
/// time with [`get`](Children::get).
#[derive(Debug, Clone, Copy)]
pub struct Children<'a> {
    pub(crate) elements: &'a [Element],
}

/// Children elements of a node in the immutable green tree, with text
/// offsets from the start of the parent node.
///
/// The same iterator as [`Children`], yielding each child together with its
/// stored offset.
#[derive(Debug, Clone, Copy)]
pub struct ChildrenWithOffsets<'a> {
    pub(crate) elements: &'a [Element],
}

impl<'a> Children<'a> {
    /// The child slots this iterator has yet to yield.
    pub closed spec fn remaining(&self) -> Seq<Element> {
        self.elements@
    }

    pub(crate) fn new(elements: &'a [Element]) -> (r: Children<'a>)
        ensures
            r.remaining() == elements@,
    {
        Children { elements }
    }

    /// The number of children left.
    pub fn len(&self) -> (r: usize)
        ensures
            r == self.remaining().len(),
    {
        self.elements.len()
    }

    /// Get the next item without advancing.
    pub fn peek(&self) -> (r: Option<NodeOrToken<&'a Node, &'a Token>>)
        ensures
            match r {
                Some(b) => self.remaining().len() > 0 && is_borrow_of(b, self.remaining()[0].child),
                None => self.remaining().len() == 0,
            },
    {
        if self.elements.len() == 0 {
            None
        } else {
            Some(self.elements[0].get())
        }
    }

    /// Get the `n`th item without advancing.
    pub fn get(&self, n: usize) -> (r: Option<NodeOrToken<&'a Node, &'a Token>>)
        ensures
            match r {
                Some(b) => n < self.remaining().len() && is_borrow_of(
                    b,
                    self.remaining()[n as int].child,
                ),
                None => n >= self.remaining().len(),
            },
    {
        if n < self.elements.len() {
            Some(self.elements[n].get())
        } else {
            None
        }
    }

    /// Yield the next child.
    pub fn next(&mut self) -> (r: Option<NodeOrToken<&'a Node, &'a Token>>)
        ensures
            match r {
                Some(b) => {
                    &&& old(self).remaining().len() > 0
                    &&& is_borrow_of(b, old(self).remaining()[0].child)
                    &&& final(self).remaining() == old(self).remaining().subrange(
                        1,
                        old(self).remaining().len() as int,
                    )
                },
                None => old(self).remaining().len() == 0 && final(self).remaining() == old(
                    self,
                ).remaining(),
            },
    {
        if self.elements.len() == 0 {
            None
        } else {
            let element = &self.elements[0];
            self.elements = &self.elements[1..self.elements.len()];
            Some(element.get())
        }
    }

    /// Yield the last child, walking backward.
    pub fn next_back(&mut self) -> (r: Option<NodeOrToken<&'a Node, &'a Token>>)
        ensures
            match r {
                Some(b) => {
                    &&& old(self).remaining().len() > 0
                    &&& is_borrow_of(
                        b,
                        old(self).remaining()[old(self).remaining().len() - 1].child,
                    )
                    &&& final(self).remaining() == old(self).remaining().subrange(
                        0,
                        old(self).remaining().len() - 1,
                    )
                },
                None => old(self).remaining().len() == 0 && final(self).remaining() == old(
                    self,
                ).remaining(),
            },
    {
        if self.elements.len() == 0 {
            None
        } else {
            let element = &self.elements[self.elements.len() - 1];
            self.elements = &self.elements[0..self.elements.len() - 1];
            Some(element.get())
        }
    }

    /// Yield the `n`th child and advance past it.
    pub fn nth(&mut self, n: usize) -> (r: Option<NodeOrToken<&'a Node, &'a Token>>)
        ensures
            match r {
                Some(b) => {
                    &&& n < old(self).remaining().len()
                    &&& is_borrow_of(b, old(self).remaining()[n as int].child)
                    &&& final(self).remaining() == old(self).remaining().subrange(
                        n + 1,
                        old(self).remaining().len() as int,
                    )
                },
                None => n >= old(self).remaining().len() && final(self).remaining().len() == 0,
            },
    {
        if n < self.elements.len() {
            let element = &self.elements[n];
            self.elements = &self.elements[n + 1..self.elements.len()];
            Some(element.get())
        } else {
            self.elements = &self.elements[self.elements.len()..self.elements.len()];
            None
        }
    }

    /// Yield the `n`th child from the back and advance (backward) past it.
    pub fn nth_back(&mut self, n: usize) -> (r: Option<NodeOrToken<&'a Node, &'a Token>>)
        ensures
            match r {
                Some(b) => {
                    &&& n < old(self).remaining().len()
                    &&& is_borrow_of(
                        b,
                        old(self).remaining()[old(self).remaining().len() - 1 - n].child,
                    )
                    &&& final(self).remaining() == old(self).remaining().subrange(
                        0,
                        old(self).remaining().len() - 1 - n,
                    )
                },
                None => n >= old(self).remaining().len() && final(self).remaining().len() == 0,
            },
    {
        if n < self.elements.len() {
            let at = self.elements.len() - 1 - n;
            let element = &self.elements[at];
            self.elements = &self.elements[0..at];
            Some(element.get())
        } else {
            self.elements = &self.elements[0..0];
            None
        }
    }

    /// The number of children left; consumes the iterator.
    pub fn count(self) -> (r: usize)
        ensures
            r == self.remaining().len(),
    {
        self.elements.len()
    }

    /// The last child; consumes the iterator.
    pub fn last(self) -> (r: Option<NodeOrToken<&'a Node, &'a Token>>)
        ensures
            match r {
                Some(b) => self.remaining().len() > 0 && is_borrow_of(
                    b,
                    self.remaining()[self.remaining().len() - 1].child,
                ),
                None => self.remaining().len() == 0,
            },
    {
        let mut this = self;
        this.next_back()
    }

    /// Divide this iterator in two at an index.
    ///
    /// The first holds the indices `[0, mid)`, the second `[mid, len)`.
    /// `mid` must be at most the number of children left.
    pub fn split_at(&self, mid: usize) -> (r: (Children<'a>, Children<'a>))
        requires
            mid <= self.remaining().len(),
        ensures
            r.0.remaining() == self.remaining().subrange(0, mid as int),
            r.1.remaining() == self.remaining().subrange(mid as int, self.remaining().len() as int),
    {
        let (left, right) = self.elements.split_at(mid);
        (Children { elements: left }, Children { elements: right })
    }

    /// Iterate the children with their offsets from the parent node.
    pub fn with_offsets(&self) -> (r: ChildrenWithOffsets<'a>)
        ensures
            r.remaining() == self.remaining(),
    {
        ChildrenWithOffsets { elements: self.elements }
    }
}

impl<'a> ChildrenWithOffsets<'a> {
    /// The child slots this iterator has yet to yield.
    pub closed spec fn remaining(&self) -> Seq<Element> {
        self.elements@
    }

    /// The number of children left.
    pub fn len(&self) -> (r: usize)
        ensures
            r == self.remaining().len(),
    {
        self.elements.len()
    }

    /// Get the next item without advancing.
    pub fn peek(&self) -> (r: Option<(TextSize, NodeOrToken<&'a Node, &'a Token>)>)
        ensures
            match r {
                Some(b) => self.remaining().len() > 0 && b.0 == self.remaining()[0].offset
                    && is_borrow_of(b.1, self.remaining()[0].child),
                None => self.remaining().len() == 0,
            },
    {
        if self.elements.len() == 0 {
            None
        } else {
            Some((self.elements[0].offset, self.elements[0].get()))
        }
    }

    /// Get the `n`th item without advancing.
    pub fn get(&self, n: usize) -> (r: Option<(TextSize, NodeOrToken<&'a Node, &'a Token>)>)
        ensures
            match r {
                Some(b) => n < self.remaining().len() && b.0 == self.remaining()[n as int].offset
                    && is_borrow_of(b.1, self.remaining()[n as int].child),
                None => n >= self.remaining().len(),
            },
    {
        if n < self.elements.len() {
            Some((self.elements[n].offset, self.elements[n].get()))
        } else {
            None
        }
    }

    /// Yield the next child and its offset.
    pub fn next(&mut self) -> (r: Option<(TextSize, NodeOrToken<&'a Node, &'a Token>)>)
        ensures
            match r {
                Some(b) => {
                    &&& old(self).remaining().len() > 0
                    &&& b.0 == old(self).remaining()[0].offset
                    &&& is_borrow_of(b.1, old(self).remaining()[0].child)
                    &&& final(self).remaining() == old(self).remaining().subrange(
                        1,
                        old(self).remaining().len() as int,
                    )
                },
                None => old(self).remaining().len() == 0 && final(self).remaining() == old(
                    self,
                ).remaining(),
            },
    {
        if self.elements.len() == 0 {
            None
        } else {
            let element = &self.elements[0];
            self.elements = &self.elements[1..self.elements.len()];
            Some((element.offset, element.get()))
        }
    }

    /// Yield the last child and its offset, walking backward.
    pub fn next_back(&mut self) -> (r: Option<(TextSize, NodeOrToken<&'a Node, &'a Token>)>)
        ensures
            match r {
                Some(b) => {
                    &&& old(self).remaining().len() > 0
                    &&& b.0 == old(self).remaining()[old(self).remaining().len() - 1].offset
                    &&& is_borrow_of(
                        b.1,
                        old(self).remaining()[old(self).remaining().len() - 1].child,
                    )
                    &&& final(self).remaining() == old(self).remaining().subrange(
                        0,
                        old(self).remaining().len() - 1,
                    )
                },
                None => old(self).remaining().len() == 0 && final(self).remaining() == old(
                    self,
                ).remaining(),
            },
    {
        if self.elements.len() == 0 {
            None
        } else {
            let element = &self.elements[self.elements.len() - 1];
            self.elements = &self.elements[0..self.elements.len() - 1];
            Some((element.offset, element.get()))
        }
    }

    /// Yield the `n`th child and advance past it.
    pub fn nth(&mut self, n: usize) -> (r: Option<(TextSize, NodeOrToken<&'a Node, &'a Token>)>)
        ensures
            match r {
                Some(b) => {
                    &&& n < old(self).remaining().len()
                    &&& b.0 == old(self).remaining()[n as int].offset
                    &&& is_borrow_of(b.1, old(self).remaining()[n as int].child)
                    &&& final(self).remaining() == old(self).remaining().subrange(
                        n + 1,
                        old(self).remaining().len() as int,
                    )
                },
                None => n >= old(self).remaining().len() && final(self).remaining().len() == 0,
            },
    {
        if n < self.elements.len() {
            let element = &self.elements[n];
            self.elements = &self.elements[n + 1..self.elements.len()];
            Some((element.offset, element.get()))
        } else {
            self.elements = &self.elements[self.elements.len()..self.elements.len()];
            None
        }
    }

    /// Yield the `n`th child from the back and advance (backward) past it.
    pub fn nth_back(&mut self, n: usize) -> (r: Option<
        (TextSize, NodeOrToken<&'a Node, &'a Token>),
    >)
        ensures
            match r {
                Some(b) => {
                    &&& n < old(self).remaining().len()
                    &&& b.0 == old(self).remaining()[old(self).remaining().len() - 1 - n].offset
                    &&& is_borrow_of(
                        b.1,
                        old(self).remaining()[old(self).remaining().len() - 1 - n].child,
                    )
                    &&& final(self).remaining() == old(self).remaining().subrange(
                        0,
                        old(self).remaining().len() - 1 - n,
                    )
                },
                None => n >= old(self).remaining().len() && final(self).remaining().len() == 0,
            },
    {
        if n < self.elements.len() {
            let at = self.elements.len() - 1 - n;
            let element = &self.elements[at];
            self.elements = &self.elements[0..at];
            Some((element.offset, element.get()))
        } else {
            self.elements = &self.elements[0..0];
            None
        }
    }

    /// The number of children left; consumes the iterator.
    pub fn count(self) -> (r: usize)
        ensures
            r == self.remaining().len(),
    {
        self.elements.len()
    }

    /// The last child and its offset; consumes the iterator.
    pub fn last(self) -> (r: Option<(TextSize, NodeOrToken<&'a Node, &'a Token>)>)
        ensures
            match r {
                Some(b) => self.remaining().len() > 0 && b.0 == self.remaining()[self.remaining().len()
                    - 1].offset && is_borrow_of(
                    b.1,
                    self.remaining()[self.remaining().len() - 1].child,
                ),
                None => self.remaining().len() == 0,
            },
    {
        let mut this = self;
        this.next_back()
    }

    /// Divide this iterator in two at an index.
    ///
    /// The first holds the indices `[0, mid)`, the second `[mid, len)`.
    /// `mid` must be at most the number of children left.
    pub fn split_at(&self, mid: usize) -> (r: (ChildrenWithOffsets<'a>, ChildrenWithOffsets<'a>))
        requires
            mid <= self.remaining().len(),
        ensures
            r.0.remaining() == self.remaining().subrange(0, mid as int),
            r.1.remaining() == self.remaining().subrange(mid as int, self.remaining().len() as int),
    {
        let (left, right) = self.elements.split_at(mid);
        (ChildrenWithOffsets { elements: left }, ChildrenWithOffsets { elements: right })
    }

    /// Iterate the children without their offsets.
    pub fn without_offsets(&self) -> (r: Children<'a>)
        ensures
            r.remaining() == self.remaining(),
    {
        Children { elements: self.elements }
    }
}

} // verus!
