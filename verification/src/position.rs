use vstd::prelude::*;

verus! {

/// 2-dimensional coordinate: column (`x`, field 0) and row (`y`, field 1),
/// both zero-based.
#[derive(Debug, Default, Clone, Copy, PartialEq, Eq, Structural)]
pub struct Point(pub usize, pub usize);

impl Point {
    #[inline]
    pub fn new(x: usize, y: usize) -> (p: Self)
        ensures
            p.0 == x,
            p.1 == y,
    {
        Point(x, y)
    }

    #[inline]
    pub fn x(&self) -> (r: usize)
        ensures
            r == self.0,
    {
        self.0
    }

    #[inline]
    pub fn y(&self) -> (r: usize)
        ensures
            r == self.1,
    {
        self.1
    }

    #[inline]
    pub fn set_x(&mut self, to: usize)
        ensures
            final(self).0 == to,
            final(self).1 == old(self).1,
    {
        self.0 = to;
    }

    #[inline]
    pub fn set_y(&mut self, to: usize)
        ensures
            final(self).0 == old(self).0,
            final(self).1 == to,
    {
        self.1 = to;
    }

    /// Gives a copy of the inner pair, `(column, row)`.
    #[inline]
    pub fn into_inner(&self) -> (r: (usize, usize))
        ensures
            r.0 == self.0,
            r.1 == self.1,
    {
        (self.0, self.1)
    }
}

} // verus!
