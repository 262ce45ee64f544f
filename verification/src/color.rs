//! How much ink a pixel asks for.

use vstd::prelude::*;

verus! {

/// A share of full ink, between nothing and all of it: `num / den`.
#[derive(Copy, Clone, Debug, PartialEq, Eq, Structural)]
pub struct Density {
    pub num: u8,
    pub den: u8,
}

impl Density {
    /// The share is a fraction between nought and one.
    pub open spec fn well_formed(&self) -> bool {
        0 < self.den && self.num <= self.den
    }

    /// What is left of full ink: one less the share.
    pub open spec fn inverse(&self) -> Density {
        Density { num: (self.den - self.num) as u8, den: self.den }
    }
}

/// The largest of the three primaries.
pub open spec fn brightest(r: u8, g: u8, b: u8) -> u8 {
    if r >= g && r >= b {
        r
    } else if g >= b {
        g
    } else {
        b
    }
}

/// The black that a pixel asks for: one less the largest of its primaries
/// as a share of 255.
pub open spec fn black(r: u8, g: u8, b: u8) -> Density {
    Density { num: (255 - brightest(r, g, b)) as u8, den: 255 }
}

/// The share of one coloured ink for a primary of value `v` in a pixel
/// whose largest primary is `top`: what the primary lacks of `top`, as a
/// share of `top`; nothing in a pixel that is black.
pub open spec fn tint(v: u8, top: u8) -> Density {
    if top == 0 {
        Density { num: 0, den: 255 }
    } else {
        Density { num: (top - v) as u8, den: top }
    }
}

/// The cyan, magenta, yellow and black that a pixel asks for.
pub open spec fn cmyk(r: u8, g: u8, b: u8) -> (Density, Density, Density, Density) {
    (
        tint(r, brightest(r, g, b)),
        tint(g, brightest(r, g, b)),
        tint(b, brightest(r, g, b)),
        black(r, g, b),
    )
}

/// Computes the largest of three primaries.
pub fn max_primary(r: u8, g: u8, b: u8) -> (m: u8)
    ensures
        m == brightest(r, g, b),
        m >= r,
        m >= g,
        m >= b,
{
    if r >= g && r >= b {
        r
    } else if g >= b {
        g
    } else {
        b
    }
}

/// Splits a pixel into cyan, magenta, yellow and black. A pixel that is
/// black asks for all the black and for none of the colours.
pub fn to_cmyk(r: u8, g: u8, b: u8) -> (c: (Density, Density, Density, Density))
    ensures
        c == cmyk(r, g, b),
        c.0.well_formed() && c.1.well_formed() && c.2.well_formed() && c.3.well_formed(),
        r == 0 && g == 0 && b == 0 ==> c.0.num == 0 && c.1.num == 0 && c.2.num == 0 && c.3.num
            == c.3.den,
{
    let top = max_primary(r, g, b);
    let black = Density { num: 255 - top, den: 255 };
    if top == 0 {
        let none = Density { num: 0, den: 255 };
        return (none, none, none, black);
    }
    (
        Density { num: top - r, den: top },
        Density { num: top - g, den: top },
        Density { num: top - b, den: top },
        black,
    )
}

/// The black that a pixel asks for when black is the only ink.
pub fn to_black(r: u8, g: u8, b: u8) -> (d: Density)
    ensures
        d == black(r, g, b),
        d.well_formed(),
{
    Density { num: 255 - max_primary(r, g, b), den: 255 }
}

/// What each of the four inks leaves of the paper: one less its share.
pub fn invert(c: (Density, Density, Density, Density)) -> (v: Vec<Density>)
    requires
        c.0.well_formed() && c.1.well_formed() && c.2.well_formed() && c.3.well_formed(),
    ensures
        v@ == seq![c.0.inverse(), c.1.inverse(), c.2.inverse(), c.3.inverse()],
        forall|i: int| 0 <= i < 4 ==> (#[trigger] v[i]).well_formed(),
{
    let mut v: Vec<Density> = Vec::with_capacity(4);
    v.push(Density { num: c.0.den - c.0.num, den: c.0.den });
    v.push(Density { num: c.1.den - c.1.num, den: c.1.den });
    v.push(Density { num: c.2.den - c.2.num, den: c.2.den });
    v.push(Density { num: c.3.den - c.3.num, den: c.3.den });
    assert(v@ =~= seq![c.0.inverse(), c.1.inverse(), c.2.inverse(), c.3.inverse()]);
    v
}

/// Whether `v / 255` is the product of what the ink `colour` and the ink
/// `key` leave of the paper.
pub open spec fn restores(colour: Density, key: Density, v: u8) -> bool {
    colour.inverse().num * key.inverse().num * 255 == v * (colour.inverse().den * key.inverse().den)
}

/// The inks that a pixel is split into give the pixel back: what cyan and
/// black together leave of the paper is the pixel's red as a share of 255,
/// and so for magenta and green and for yellow and blue; and what black
/// alone leaves is the largest primary.
pub proof fn lemma_cmyk_round_trip(r: u8, g: u8, b: u8)
    ensures
        restores(cmyk(r, g, b).0, cmyk(r, g, b).3, r),
        restores(cmyk(r, g, b).1, cmyk(r, g, b).3, g),
        restores(cmyk(r, g, b).2, cmyk(r, g, b).3, b),
        cmyk(r, g, b).3.inverse().num == brightest(r, g, b),
        cmyk(r, g, b).3.inverse().den == 255,
{
    let top = brightest(r, g, b) as int;
    lemma_restores(r, top as u8);
    lemma_restores(g, top as u8);
    lemma_restores(b, top as u8);
}

proof fn lemma_restores(v: u8, top: u8)
    requires
        v <= top,
    ensures
        restores(tint(v, top), Density { num: (255 - top) as u8, den: 255 }, v),
{
    if top > 0 {
        assert((v * top) * 255 == v * (top * 255)) by (nonlinear_arith);
    } else {
        assert(255 * 0 * 255 == 0 * (255 * 255)) by (nonlinear_arith);
    }
}

} // verus!
