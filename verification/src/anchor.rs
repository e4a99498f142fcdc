use vstd::prelude::*;

verus! {

/// The centroid anchor: the average of all points.
#[derive(Debug, Clone, Copy)]
pub struct Centroid;

/// The anchor of shapes that have an origin point.
#[derive(Debug, Clone, Copy)]
pub struct Origin;

/// A focus of an ellipse: on the positive or the negative semi-major axis.
#[derive(Debug, Clone, Copy, PartialEq, Eq, Structural)]
pub struct Focus {
    pos: bool,
}

impl Focus {
    /// Whether this is the focus on the positive semi-major axis.
    pub closed spec fn positive(self) -> bool {
        self.pos
    }

    /// The focus on the positive semi-major axis.
    pub fn pos() -> (f: Focus)
        ensures
            f.positive(),
    {
        Focus { pos: true }
    }

    /// The focus on the negative semi-major axis.
    pub fn neg() -> (f: Focus)
        ensures
            !f.positive(),
    {
        Focus { pos: false }
    }

    /// Whether this is the focus on the positive semi-major axis.
    pub fn is_pos(&self) -> (r: bool)
        ensures
            r == self.positive(),
    {
        self.pos
    }
}

} // verus!
