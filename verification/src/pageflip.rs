//! Double buffering with explicit ping-pong pages.
//!
//! Two owned buffers and a parity flag: one page is the current read
//! side, the other collects the next state, and `flip` exchanges the
//! roles after a full pass — no in-place aliasing.

use vstd::prelude::*;

verus! {

/// Two pages of the same shape plus the parity that selects them.
#[derive(Debug, Clone)]
pub struct PageFlip<T> {
    p1: T,
    p2: T,
    flipped: bool,
}

impl<T> PageFlip<T> {
    /// The page reads currently come from.
    pub closed spec fn spec_read(&self) -> T {
        if self.flipped {
            self.p2
        } else {
            self.p1
        }
    }

    /// The page writes currently go to.
    pub closed spec fn spec_write(&self) -> T {
        if self.flipped {
            self.p1
        } else {
            self.p2
        }
    }

    /// Build both pages with the same initializer.
    pub fn new<F: Fn() -> T>(init: F) -> (r: PageFlip<T>)
        requires
            call_requires(init, ()),
        ensures
            call_ensures(init, (), r.spec_read()),
            call_ensures(init, (), r.spec_write()),
    {
        let p1 = init();
        let p2 = init();
        PageFlip { p1, p2, flipped: false }
    }

    /// The current read page.
    pub fn read(&self) -> (r: &T)
        ensures
            *r == self.spec_read(),
    {
        if self.flipped {
            &self.p2
        } else {
            &self.p1
        }
    }

    /// The current write page; the read page is untouched through it.
    pub fn write(&mut self) -> (r: &mut T)
        ensures
            *r == old(self).spec_write(),
            final (self).spec_write() == *final (r),
            final (self).spec_read() == old(self).spec_read(),
    {
        if self.flipped {
            &mut self.p1
        } else {
            &mut self.p2
        }
    }

    /// Exchange the roles of the two pages.
    pub fn flip(&mut self)
        ensures
            final (self).spec_read() == old(self).spec_write(),
            final (self).spec_write() == old(self).spec_read(),
    {
        self.flipped = !self.flipped;
    }
}

} // verus!
