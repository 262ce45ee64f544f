//! Scattering points over a picture, more of them where it is dark.

use vstd::prelude::*;
use rand::Rng;
use crate::arith::{lemma_power_monotonic, power, raise};
use crate::color::{black, cmyk, invert, to_black, to_cmyk, Density};
use crate::gcode::grid;
use crate::point::{Point, UNITS_PER_ONE};
use crate::raster::Raster;

verus! {

/// The number of thresholds: a threshold `t` stands for `t / 65536`.
pub const THRESHOLDS: u32 = 65_536;

/// The exponent `num / den` to which the share of paper that an ink leaves
/// is raised: above one it thins out the dark parts of a picture, below
/// one it fills them.
///
/// The exponents on offer are the fractions of a numerator from 1 to 8 and
/// a denominator from 1 to 4, from a quarter to eight: with these, and with
/// shares of paper and thresholds as they are, the two powers that a draw
/// compares are whole numbers of 128 bits.
#[derive(Copy, Clone, Debug, PartialEq, Eq, Structural)]
pub struct Gamma {
    pub num: u8,
    pub den: u8,
}

/// A place on the picture and a threshold, both drawn at random.
#[derive(Copy, Clone, Debug, PartialEq, Eq, Structural)]
pub struct Draw {
    pub at: Point,
    pub threshold: u16,
}

impl Gamma {
    /// The exponent is a fraction of a numerator from 1 to 8 and a
    /// denominator from 1 to 4.
    pub open spec fn well_formed(&self) -> bool {
        1 <= self.num <= 8 && 1 <= self.den <= 4
    }

    /// Tells whether the exponent is well formed.
    pub fn is_valid(&self) -> (ok: bool)
        ensures
            ok == self.well_formed(),
    {
        1 <= self.num && self.num <= 8 && 1 <= self.den && self.den <= 4
    }

    /// The exponent one.
    pub fn one() -> (g: Gamma)
        ensures
            g == (Gamma { num: 1, den: 1 }),
            g.well_formed(),
    {
        Gamma { num: 1, den: 1 }
    }
}

/// Whether a threshold passes a share of paper raised to gamma:
/// `threshold / 65536 >= (paper.num / paper.den) ^ (gamma.num / gamma.den)`,
/// with both sides raised to `gamma.den` and the fractions multiplied out.
pub open spec fn passes(threshold: u16, paper: Density, gamma: Gamma) -> bool {
    power(threshold as nat, gamma.den as nat) * power(paper.den as nat, gamma.num as nat) >= power(
        paper.num as nat,
        gamma.num as nat,
    ) * power(THRESHOLDS as nat, gamma.den as nat)
}

/// The share of paper that the ink of `channel` leaves at a pixel: of its
/// cyan, magenta, yellow or black where the picture is split into four
/// inks, and of its black otherwise.
pub open spec fn paper(rgb: (u8, u8, u8), four_inks: bool, channel: int) -> Density {
    if !four_inks {
        black(rgb.0, rgb.1, rgb.2).inverse()
    } else if channel == 0 {
        cmyk(rgb.0, rgb.1, rgb.2).0.inverse()
    } else if channel == 1 {
        cmyk(rgb.0, rgb.1, rgb.2).1.inverse()
    } else if channel == 2 {
        cmyk(rgb.0, rgb.1, rgb.2).2.inverse()
    } else {
        cmyk(rgb.0, rgb.1, rgb.2).3.inverse()
    }
}

/// The number of channels: one for each ink.
pub open spec fn inks(four_inks: bool) -> nat {
    if four_inks {
        4
    } else {
        1
    }
}

/// Whether the threshold of a draw that fell on a pixel `rgb` passes for
/// `channel`.
pub open spec fn takes(
    rgb: (u8, u8, u8),
    threshold: u16,
    gamma: Gamma,
    four_inks: bool,
    channel: int,
) -> bool {
    passes(threshold, paper(rgb, four_inks, channel), gamma)
}

/// The pixel that a point of the raster lies on.
pub open spec fn pixel_under(img: &Raster, p: Point) -> (u8, u8, u8) {
    img.rgb(p.x as int / UNITS_PER_ONE as int, p.y as int / UNITS_PER_ONE as int)
}

/// The number of points in all channels together.
pub open spec fn count(chs: Seq<Seq<Point>>) -> nat
    decreases chs.len(),
{
    if chs.len() == 0 {
        0
    } else {
        count(chs.drop_last()) + chs.last().len()
    }
}

/// The channels after a draw that fell on a pixel `rgb` has been offered to
/// the first `upto` of them, one after the other: a channel gets the place
/// of the draw added at its end if the threshold passes for it and the
/// channels together, as the draw has left them so far, hold fewer than
/// `limit` points.
pub open spec fn offered(
    chs: Seq<Seq<Point>>,
    rgb: (u8, u8, u8),
    draw: Draw,
    gamma: Gamma,
    four_inks: bool,
    limit: nat,
    upto: int,
) -> Seq<Seq<Point>>
    decreases upto,
{
    if upto <= 0 {
        chs
    } else {
        let so_far = offered(chs, rgb, draw, gamma, four_inks, limit, upto - 1);
        if count(so_far) < limit && takes(rgb, draw.threshold, gamma, four_inks, upto - 1) {
            so_far.update(upto - 1, so_far[upto - 1].push(draw.at))
        } else {
            so_far
        }
    }
}

/// The channels after a draw has been offered to each of them in turn. No
/// channel takes it once the channels hold `limit` points.
pub open spec fn with_draw(
    chs: Seq<Seq<Point>>,
    img: &Raster,
    draw: Draw,
    gamma: Gamma,
    four_inks: bool,
    limit: nat,
) -> Seq<Seq<Point>> {
    offered(chs, pixel_under(img, draw.at), draw, gamma, four_inks, limit, chs.len() as int)
}

/// A point more in one channel is a point more in all.
pub proof fn lemma_count_push(chs: Seq<Seq<Point>>, c: int, p: Point)
    requires
        0 <= c < chs.len(),
    ensures
        count(chs.update(c, chs[c].push(p))) == count(chs) + 1,
    decreases chs.len(),
{
    let more = chs.update(c, chs[c].push(p));
    if c == chs.len() - 1 {
        assert(more.drop_last() =~= chs.drop_last());
    } else {
        lemma_count_push(chs.drop_last(), c, p);
        assert(more.drop_last() =~= chs.drop_last().update(c, chs[c].push(p)));
    }
}

/// Channels without points hold none together.
pub proof fn lemma_count_empty(chs: Seq<Seq<Point>>)
    requires
        forall|c: int| 0 <= c < chs.len() ==> (#[trigger] chs[c]).len() == 0,
    ensures
        count(chs) == 0,
    decreases chs.len(),
{
    if chs.len() > 0 {
        lemma_count_empty(chs.drop_last());
    }
}

/// A draw leaves every channel as it was or with its place added at the
/// end, leaves the channels it was not offered to as they were, and never
/// takes the channels beyond `limit` points.
pub proof fn lemma_offered(
    chs: Seq<Seq<Point>>,
    rgb: (u8, u8, u8),
    draw: Draw,
    gamma: Gamma,
    four_inks: bool,
    limit: nat,
    upto: int,
)
    requires
        0 <= upto <= chs.len(),
    ensures
        offered(chs, rgb, draw, gamma, four_inks, limit, upto).len() == chs.len(),
        forall|c: int|
            0 <= c < chs.len() ==> #[trigger] offered(
                chs,
                rgb,
                draw,
                gamma,
                four_inks,
                limit,
                upto,
            )[c] == chs[c] || offered(chs, rgb, draw, gamma, four_inks, limit, upto)[c]
                == chs[c].push(draw.at),
        forall|c: int|
            upto <= c < chs.len() ==> #[trigger] offered(
                chs,
                rgb,
                draw,
                gamma,
                four_inks,
                limit,
                upto,
            )[c] == chs[c],
        count(chs) <= count(offered(chs, rgb, draw, gamma, four_inks, limit, upto)),
        count(chs) <= limit ==> count(offered(chs, rgb, draw, gamma, four_inks, limit, upto))
            <= limit,
    decreases upto,
{
    if upto > 0 {
        lemma_offered(chs, rgb, draw, gamma, four_inks, limit, upto - 1);
        let so_far = offered(chs, rgb, draw, gamma, four_inks, limit, upto - 1);
        lemma_count_push(so_far, upto - 1, draw.at);
    }
}

/// The largest powers that `passes` compares are below 2 to the 64th.
proof fn lemma_power_limits()
    ensures
        power(255, 8) == 17_878_103_347_812_890_625,
        power(65_536, 4) == 0x1_0000_0000_0000_0000,
{
    reveal_with_fuel(power, 10);
    assert(power(255, 2) == 65_025) by (nonlinear_arith)
        requires
            power(255, 2) == 255 * (255 * 1),
    ;
    assert(power(255, 4) == 4_228_250_625) by (nonlinear_arith)
        requires
            power(255, 4) == 255 * (255 * power(255, 2)),
            power(255, 2) == 65_025,
    ;
    assert(power(255, 6) == 274_941_996_890_625) by (nonlinear_arith)
        requires
            power(255, 6) == 255 * (255 * power(255, 4)),
            power(255, 4) == 4_228_250_625,
    ;
    assert(power(255, 8) == 17_878_103_347_812_890_625) by (nonlinear_arith)
        requires
            power(255, 8) == 255 * (255 * power(255, 6)),
            power(255, 6) == 274_941_996_890_625,
    ;
    assert(power(65_536, 2) == 0x1_0000_0000) by (nonlinear_arith)
        requires
            power(65_536, 2) == 65_536 * (65_536 * 1),
    ;
    assert(power(65_536, 4) == 0x1_0000_0000_0000_0000) by (nonlinear_arith)
        requires
            power(65_536, 4) == 65_536 * (65_536 * power(65_536, 2)),
            power(65_536, 2) == 0x1_0000_0000,
    ;
}

/// Tells whether a threshold passes a share of paper raised to gamma.
pub fn accepts(threshold: u16, paper: Density, gamma: Gamma) -> (ok: bool)
    requires
        gamma.well_formed(),
    ensures
        ok == passes(threshold, paper, gamma),
{
    proof {
        lemma_power_limits();
        lemma_power_monotonic(threshold as nat, gamma.den as nat, 65_536, 4);
        lemma_power_monotonic(paper.den as nat, gamma.num as nat, 255, 8);
        lemma_power_monotonic(paper.num as nat, gamma.num as nat, 255, 8);
        lemma_power_monotonic(65_536, gamma.den as nat, 65_536, 4);
    }
    let t = raise(threshold as u128, gamma.den);
    let d = raise(paper.den as u128, gamma.num);
    let n = raise(paper.num as u128, gamma.num);
    let s = raise(THRESHOLDS as u128, gamma.den);
    proof {
        assert(t * d <= 0x1_0000_0000_0000_0000 * 17_878_103_347_812_890_625) by (nonlinear_arith)
            requires
                t <= 0x1_0000_0000_0000_0000,
                d <= 17_878_103_347_812_890_625,
        ;
        assert(n * s <= 17_878_103_347_812_890_625 * 0x1_0000_0000_0000_0000) by (nonlinear_arith)
            requires
                s <= 0x1_0000_0000_0000_0000,
                n <= 17_878_103_347_812_890_625,
        ;
    }
    t * d >= n * s
}

/// Offers a draw to each channel in turn: a channel whose ink lets the
/// threshold pass gets the place of the draw added at its end, as long as
/// the channels together hold fewer than `num_points` points.
pub fn place_draw(
    channels: &mut Vec<Vec<Point>>,
    img: &Raster,
    draw: Draw,
    gamma: Gamma,
    four_inks: bool,
    num_points: usize,
)
    requires
        old(channels).len() == inks(four_inks),
        img.well_formed(),
        img.holds(draw.at),
        gamma.well_formed(),
    ensures
        final(channels).len() == old(channels).len(),
        grid(final(channels)) == with_draw(
            grid(old(channels)),
            img,
            draw,
            gamma,
            four_inks,
            num_points as nat,
        ),
{
    let px: u32 = (draw.at.x / UNITS_PER_ONE) as u32;
    let py: u32 = (draw.at.y / UNITS_PER_ONE) as u32;
    proof {
        assert(draw.at.x as int / 100_000 < img.width) by (nonlinear_arith)
            requires
                0 <= draw.at.x < img.width * 100_000,
        ;
        assert(draw.at.y as int / 100_000 < img.height) by (nonlinear_arith)
            requires
                0 <= draw.at.y < img.height * 100_000,
        ;
    }
    let rgb = img.get_pixel(px, py);
    let shares = shares_of_paper(rgb, four_inks);
    let ghost before = grid(channels);
    let ghost limit = num_points as nat;
    let mut total: u128 = count_points(channels);
    let mut c: usize = 0;
    while c < channels.len()
        invariant
            c <= channels.len(),
            channels.len() == before.len(),
            channels.len() == inks(four_inks),
            shares.len() == channels.len(),
            gamma.well_formed(),
            limit == num_points,
            forall|d: int| 0 <= d < shares.len() ==> #[trigger] shares[d] == paper(rgb, four_inks, d),
            grid(channels) == offered(before, rgb, draw, gamma, four_inks, limit, c as int),
            total == count(grid(channels)),
        decreases channels.len() - c,
    {
        let ghost so_far = grid(channels);
        if total < num_points as u128 && accepts(draw.threshold, shares[c], gamma) {
            channels[c].push(draw.at);
            total = total + 1;
            proof {
                lemma_count_push(so_far, c as int, draw.at);
                assert(grid(channels) =~= so_far.update(c as int, so_far[c as int].push(draw.at)));
            }
        } else {
            assert(grid(channels) =~= so_far);
        }
        c += 1;
    }
}

/// The share of paper that each ink leaves at a pixel, one for each
/// channel.
fn shares_of_paper(rgb: (u8, u8, u8), four_inks: bool) -> (shares: Vec<Density>)
    ensures
        shares.len() == inks(four_inks),
        forall|d: int| 0 <= d < shares.len() ==> #[trigger] shares[d] == paper(rgb, four_inks, d),
{
    if four_inks {
        invert(to_cmyk(rgb.0, rgb.1, rgb.2))
    } else {
        let d = to_black(rgb.0, rgb.1, rgb.2);
        let mut shares: Vec<Density> = Vec::with_capacity(1);
        shares.push(Density { num: d.den - d.num, den: d.den });
        shares
    }
}

/// `Rng::gen_range` of the rand crate on the generator of the thread,
/// with the range from nought up to, not including, `bound`: the result
/// lies in that range. The call panics on an empty range, which `requires`
/// leaves out.
#[verifier::external_body]
fn random_below(bound: u32) -> (r: u32)
    requires
        bound > 0,
    ensures
        r < bound,
{
    rand::thread_rng().gen_range(0..bound)
}

/// Draws a place on the raster and a threshold: three numbers from the
/// generator of the thread, the first below the width of the raster in
/// lattice units, the second below its height, the third below the number
/// of thresholds. What the numbers are is left to chance; `draw_at` says
/// what draw each three of them make.
pub fn draw_on(img: &Raster) -> (d: Draw)
    requires
        img.well_formed(),
    ensures
        img.holds(d.at),
{
    assert(0 < img.width * 100_000 <= 21_474 * 100_000 && 0 < img.height * 100_000 <= 21_474
        * 100_000) by (nonlinear_arith)
        requires
            0 < img.width <= 21_474,
            0 < img.height <= 21_474,
    ;
    let x = random_below(img.width * 100_000);
    let y = random_below(img.height * 100_000);
    let t = random_below(THRESHOLDS);
    draw_at(x, y, t)
}

/// The draw that three numbers stand for: a place, by its lattice
/// coordinates, and a threshold.
pub fn draw_at(x: u32, y: u32, threshold: u32) -> (d: Draw)
    requires
        x <= 0x7fff_ffff,
        y <= 0x7fff_ffff,
        threshold < THRESHOLDS,
    ensures
        d.at.x == x,
        d.at.y == y,
        d.threshold == threshold,
{
    Draw { at: Point { x: x as i32, y: y as i32 }, threshold: threshold as u16 }
}

/// Counts the points in all channels together.
pub fn count_points(channels: &Vec<Vec<Point>>) -> (n: u128)
    requires
        channels.len() <= 4,
    ensures
        n == count(grid(channels)),
{
    let ghost chs = grid(channels);
    let mut n: u128 = 0;
    let mut c: usize = 0;
    while c < channels.len()
        invariant
            c <= channels.len() <= 4,
            chs == grid(channels),
            n == count(chs.take(c as int)),
            n <= c * 0xffff_ffff_ffff_ffff,
        decreases channels.len() - c,
    {
        assert(chs.take(c + 1).drop_last() =~= chs.take(c as int));
        n = n + channels[c].len() as u128;
        c += 1;
    }
    assert(chs.take(c as int) =~= chs);
    n
}

/// The channels after the draws `draws`, offered to them in their order,
/// where the channels are to hold `limit` points.
pub open spec fn after_draws(
    img: &Raster,
    draws: Seq<Draw>,
    gamma: Gamma,
    four_inks: bool,
    limit: nat,
) -> Seq<Seq<Point>>
    decreases draws.len(),
{
    if draws.len() == 0 {
        Seq::new(inks(four_inks), |c: int| Seq::empty())
    } else {
        with_draw(
            after_draws(img, draws.drop_last(), gamma, four_inks, limit),
            img,
            draws.last(),
            gamma,
            four_inks,
            limit,
        )
    }
}

/// Whether `draws` is a run of draws as `sample_points` makes it: all of
/// them fall on the raster, before each of them the channels hold fewer
/// than `num_points` points, and after the last of them the channels hold
/// exactly that many or `max_draws` draws have been made.
pub open spec fn is_sampling(
    img: &Raster,
    draws: Seq<Draw>,
    num_points: usize,
    gamma: Gamma,
    four_inks: bool,
    max_draws: u64,
) -> bool {
    &&& draws.len() <= max_draws
    &&& forall|i: int| 0 <= i < draws.len() ==> img.holds(#[trigger] draws[i].at)
    &&& forall|n: int|
        0 <= n < draws.len() ==> count(
            #[trigger] after_draws(img, draws.take(n), gamma, four_inks, num_points as nat),
        ) < num_points
    &&& draws.len() == max_draws || count(
        after_draws(img, draws, gamma, four_inks, num_points as nat),
    ) == num_points
}

/// Scatters points over the picture until the channels together hold
/// exactly `num_points` of them, or `max_draws` draws have been made. There
/// is one channel for one ink and there are four for four inks. Every draw
/// is a place on the picture and a threshold; it is offered to each channel
/// in turn, and a channel takes the place where the threshold passes the
/// share of paper that its ink leaves there, raised to `gamma`.
pub fn sample_points(
    img: &Raster,
    num_points: usize,
    gamma: Gamma,
    four_inks: bool,
    max_draws: u64,
) -> (channels: Vec<Vec<Point>>)
    requires
        img.well_formed(),
        gamma.well_formed(),
    ensures
        !four_inks ==> channels.len() == 1,
        four_inks ==> channels.len() == 4,
        exists|draws: Seq<Draw>| #[trigger]
            is_sampling(img, draws, num_points, gamma, four_inks, max_draws) && grid(&channels)
                == after_draws(img, draws, gamma, four_inks, num_points as nat),
        forall|c: int, i: int|
            0 <= c < channels.len() && 0 <= i < channels[c].len() ==> img.holds(
                #[trigger] channels[c][i],
            ),
        count(grid(&channels)) <= num_points,
        num_points == 0 || max_draws == 0 ==> count(grid(&channels)) == 0,
{
    let mut channels: Vec<Vec<Point>> = Vec::with_capacity(4);
    channels.push(Vec::new());
    if four_inks {
        channels.push(Vec::new());
        channels.push(Vec::new());
        channels.push(Vec::new());
    }
    let mut made: u64 = 0;
    let ghost limit = num_points as nat;
    let ghost mut draws: Seq<Draw> = Seq::empty();
    proof {
        assert(grid(&channels) =~= after_draws(img, draws, gamma, four_inks, limit));
        lemma_count_empty(grid(&channels));
    }
    while made < max_draws && count_points(&channels) < num_points as u128
        invariant
            img.well_formed(),
            gamma.well_formed(),
            limit == num_points,
            channels.len() == inks(four_inks),
            made <= max_draws,
            draws.len() == made,
            grid(&channels) == after_draws(img, draws, gamma, four_inks, limit),
            forall|i: int| 0 <= i < draws.len() ==> img.holds(#[trigger] draws[i].at),
            forall|n: int|
                0 <= n < draws.len() ==> count(
                    #[trigger] after_draws(img, draws.take(n), gamma, four_inks, limit),
                ) < num_points,
            forall|c: int, i: int|
                0 <= c < channels.len() && 0 <= i < channels[c].len() ==> img.holds(
                    #[trigger] channels[c][i],
                ),
            count(grid(&channels)) <= num_points,
            made == 0 ==> count(grid(&channels)) == 0,
        decreases max_draws - made,
    {
        let ghost before = grid(&channels);
        let ghost earlier = draws;
        let draw = draw_on(img);
        place_draw(&mut channels, img, draw, gamma, four_inks, num_points);
        proof {
            draws = earlier.push(draw);
            let after = grid(&channels);
            assert(draws.drop_last() =~= earlier);
            lemma_offered(
                before,
                pixel_under(img, draw.at),
                draw,
                gamma,
                four_inks,
                limit,
                before.len() as int,
            );
            assert forall|n: int| 0 <= n < draws.len() implies count(
                #[trigger] after_draws(img, draws.take(n), gamma, four_inks, limit),
            ) < num_points by {
                if n < earlier.len() {
                    assert(draws.take(n) =~= earlier.take(n));
                } else {
                    assert(draws.take(n) =~= earlier);
                }
            }
            assert forall|c: int, i: int|
                0 <= c < channels.len() && 0 <= i < channels[c].len() implies img.holds(
                #[trigger] channels[c][i],
            ) by {
                assert(after[c] == channels[c]@);
                assert(after[c] == before[c] || after[c] == before[c].push(draw.at));
                if i < before[c].len() {
                    assert(channels[c][i] == before[c][i]);
                }
            }
        }
        made += 1;
    }
    assert(is_sampling(img, draws, num_points, gamma, four_inks, max_draws));
    channels
}

} // verus!
