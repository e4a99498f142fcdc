use vstd::prelude::*;

verus! {

/// Items that can be brought into a shape where they can be interpolated
/// with each other (same number of points, same structure).
pub trait Alignable: Sized {
    /// Whether `self` and `other` already share one shape.
    spec fn aligned_with(self, other: Self) -> bool;

    /// Whether aligning `self` with `other` may reshape them into
    /// `new_self` and `new_other`.
    spec fn aligns_to(self, other: Self, new_self: Self, new_other: Self) -> bool;

    /// Whether `self` and `other` already share one shape.
    fn is_aligned(&self, other: &Self) -> (r: bool)
        ensures
            r == self.aligned_with(*other),
    ;

    /// Reshape both items so that they share one shape.
    fn align_with(&mut self, other: &mut Self)
        ensures
            final(self).aligned_with(*final(other)),
            old(self).aligns_to(*old(other), *final(self), *final(other)),
    ;
}

/// The requirement of [`Morph`]
pub trait MorphRequirement: Alignable + Clone {

}

impl<T: Alignable + Clone> MorphRequirement for T {

}

/// The methods to create animations for `T` that satisfies [`MorphRequirement`]
///
/// Each method returns the animation and leaves the item in the state the
/// animation ends at.
pub trait MorphAnim: MorphRequirement + Sized {
    /// Create a [`Morph`] anim with a func: to what `f` makes of a copy of
    /// the item.
    fn morph<F: Fn(Self) -> Self>(&mut self, f: F) -> (m: Morph<Self>)
        requires
            forall|x: Self| call_requires(f, (x,)),
        ensures
            cloned::<Self>(*old(self), m.spec_src()),
            exists|c: Self| cloned::<Self>(*old(self), c) && call_ensures(f, (c,), m.spec_dst()),
            cloned::<Self>(m.spec_dst(), *final(self)),
    ;

    /// Create a [`Morph`] anim from src.
    fn morph_from(&mut self, src: Self) -> (m: Morph<Self>)
        ensures
            m.spec_src() == src,
            cloned::<Self>(*old(self), m.spec_dst()),
            cloned::<Self>(m.spec_dst(), *final(self)),
    ;

    /// Create a [`Morph`] anim to dst.
    fn morph_to(&mut self, dst: Self) -> (m: Morph<Self>)
        ensures
            cloned::<Self>(*old(self), m.spec_src()),
            m.spec_dst() == dst,
            cloned::<Self>(dst, *final(self)),
    ;
}

impl<T: MorphRequirement> MorphAnim for T {
    fn morph<F: Fn(T) -> T>(&mut self, f: F) -> (m: Morph<T>) {
        let copy = self.clone();
        let ghost c = copy;
        let dst = f(copy);
        let m = Morph::new(self.clone(), dst);
        *self = m.dst.clone();
        assert(cloned::<T>(*old(self), c) && call_ensures(f, (c,), m.spec_dst()));
        m
    }

    fn morph_from(&mut self, src: T) -> (m: Morph<T>) {
        let m = Morph::new(src, self.clone());
        *self = m.dst.clone();
        m
    }

    fn morph_to(&mut self, dst: T) -> (m: Morph<T>) {
        let m = Morph::new(self.clone(), dst);
        *self = m.dst.clone();
        m
    }
}

/// Morph Anim
pub struct Morph<T: MorphRequirement> {
    src: T,
    dst: T,
    aligned_src: T,
    aligned_dst: T,
}

impl<T: MorphRequirement> Morph<T> {
    /// The item the animation starts from.
    pub closed spec fn spec_src(&self) -> T {
        self.src
    }

    /// The item the animation ends at.
    pub closed spec fn spec_dst(&self) -> T {
        self.dst
    }

    /// The start item reshaped for interpolation.
    pub closed spec fn spec_aligned_src(&self) -> T {
        self.aligned_src
    }

    /// The end item reshaped for interpolation.
    pub closed spec fn spec_aligned_dst(&self) -> T {
        self.aligned_dst
    }

    /// The item the animation starts from.
    pub fn src(&self) -> (r: &T)
        ensures
            *r == self.spec_src(),
    {
        &self.src
    }

    /// The item the animation ends at.
    pub fn dst(&self) -> (r: &T)
        ensures
            *r == self.spec_dst(),
    {
        &self.dst
    }

    /// The start item reshaped for interpolation.
    pub fn aligned_src(&self) -> (r: &T)
        ensures
            *r == self.spec_aligned_src(),
    {
        &self.aligned_src
    }

    /// The end item reshaped for interpolation.
    pub fn aligned_dst(&self) -> (r: &T)
        ensures
            *r == self.spec_aligned_dst(),
    {
        &self.aligned_dst
    }

    /// Constructor
    ///
    /// Keeps `src` and `dst` as they are and holds a copy of each that is
    /// aligned with the other; copies that are already aligned are kept as
    /// they were cloned, others are what aligning the src copy with the dst
    /// copy makes of them.
    pub fn new(src: T, dst: T) -> (m: Self)
        ensures
            m.spec_src() == src,
            m.spec_dst() == dst,
            m.spec_aligned_src().aligned_with(m.spec_aligned_dst()),
            exists|a: T, b: T|
                {
                    &&& cloned::<T>(src, a)
                    &&& cloned::<T>(dst, b)
                    &&& #[trigger] a.aligned_with(b) ==> m.spec_aligned_src() == a
                        && m.spec_aligned_dst() == b
                    &&& !a.aligned_with(b) ==> a.aligns_to(
                        b,
                        m.spec_aligned_src(),
                        m.spec_aligned_dst(),
                    )
                },
    {
        let mut aligned_src = src.clone();
        let mut aligned_dst = dst.clone();
        let ghost a = aligned_src;
        let ghost b = aligned_dst;
        if !aligned_src.is_aligned(&aligned_dst) {
            aligned_src.align_with(&mut aligned_dst);
        }
        let m = Morph { src, dst, aligned_src, aligned_dst };
        assert(a.aligned_with(b) ==> m.spec_aligned_src() == a && m.spec_aligned_dst() == b);
        assert(!a.aligned_with(b) ==> a.aligns_to(b, m.spec_aligned_src(), m.spec_aligned_dst()));
        m
    }
}

} // verus!
