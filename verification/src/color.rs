//! Colours as four channels: red, green, blue and alpha.
use vstd::prelude::*;

verus! {

/// A colour with four channels of type `T`.
#[derive(Clone, Copy, Debug, PartialEq, Eq)]
pub struct Rgba<T: Copy>([T; 4]);

impl<T: Copy> Rgba<T> {
    /// The channels in the order red, green, blue, alpha.
    pub closed spec fn channels(&self) -> Seq<T> {
        self.0@
    }

    pub proof fn lemma_channels(&self)
        ensures
            self.channels().len() == 4,
    {
    }

    pub fn new(r: T, g: T, b: T, a: T) -> (c: Self)
        ensures
            c.channels() == seq![r, g, b, a],
    {
        Rgba([r, g, b, a])
    }

    pub fn red(self) -> (r: T)
        ensures
            r == self.channels()[0],
    {
        self.0[0]
    }

    pub fn green(self) -> (g: T)
        ensures
            g == self.channels()[1],
    {
        self.0[1]
    }

    pub fn blue(self) -> (b: T)
        ensures
            b == self.channels()[2],
    {
        self.0[2]
    }

    pub fn alpha(self) -> (a: T)
        ensures
            a == self.channels()[3],
    {
        self.0[3]
    }

    /// The same colour with another red channel.
    pub fn with_red(self, red: T) -> (c: Self)
        ensures
            c.channels() == self.channels().update(0, red),
    {
        let c = Rgba([red, self.0[1], self.0[2], self.0[3]]);
        assert(c.channels() =~= self.channels().update(0, red));
        c
    }

    /// The same colour with another green channel.
    pub fn with_green(self, green: T) -> (c: Self)
        ensures
            c.channels() == self.channels().update(1, green),
    {
        let c = Rgba([self.0[0], green, self.0[2], self.0[3]]);
        assert(c.channels() =~= self.channels().update(1, green));
        c
    }

    /// The same colour with another blue channel.
    pub fn with_blue(self, blue: T) -> (c: Self)
        ensures
            c.channels() == self.channels().update(2, blue),
    {
        let c = Rgba([self.0[0], self.0[1], blue, self.0[3]]);
        assert(c.channels() =~= self.channels().update(2, blue));
        c
    }

    /// The same colour with another alpha channel.
    pub fn with_alpha(self, alpha: T) -> (c: Self)
        ensures
            c.channels() == self.channels().update(3, alpha),
    {
        let c = Rgba([self.0[0], self.0[1], self.0[2], alpha]);
        assert(c.channels() =~= self.channels().update(3, alpha));
        c
    }

    /// The channels as a slice, red first.
    pub fn as_slice(&self) -> (s: &[T])
        ensures
            s@ == self.channels(),
    {
        self.0.as_slice()
    }
}

impl Default for Rgba<u8> {
    /// Opaque black.
    fn default() -> (c: Self)
        ensures
            c.channels() == seq![0u8, 0u8, 0u8, 255u8],
    {
        Rgba([0, 0, 0, 255])
    }
}

} // verus!
