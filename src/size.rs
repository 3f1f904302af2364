use vstd::prelude::*;

verus! {

/// A value that denotes the shape of a matrix: a single `usize` for a square
/// one, or an explicit `(height, width)` pair.
pub trait Size {
    spec fn spec_height(&self) -> nat;

    spec fn spec_width(&self) -> nat;

    fn height(&self) -> (r: usize)
        ensures
            r == self.spec_height(),
    ;

    fn width(&self) -> (r: usize)
        ensures
            r == self.spec_width(),
    ;

    fn dimensions(&self) -> (r: (usize, usize))
        ensures
            r.0 == self.spec_height(),
            r.1 == self.spec_width(),
    {
        (self.height(), self.width())
    }
}

impl Size for usize {
    open spec fn spec_height(&self) -> nat {
        *self as nat
    }

    open spec fn spec_width(&self) -> nat {
        *self as nat
    }

    fn height(&self) -> (r: usize) {
        *self
    }

    fn width(&self) -> (r: usize) {
        *self
    }
}

impl Size for (usize, usize) {
    open spec fn spec_height(&self) -> nat {
        self.0 as nat
    }

    open spec fn spec_width(&self) -> nat {
        self.1 as nat
    }

    fn height(&self) -> (r: usize) {
        self.0
    }

    fn width(&self) -> (r: usize) {
        self.1
    }
}

} // verus!
