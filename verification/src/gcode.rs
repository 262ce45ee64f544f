//! Fitting tours into the drawing area and turning them into the lengths of
//! the two cords of the plotter.

use vstd::prelude::*;
use crate::arith::{floor_div, half_root, half_sqrt, lemma_floor_quotient, lemma_floor_root_below};
use crate::point::Point;

verus! {

/// The points of one pen, in drawing order.
pub type Channel = Vec<Point>;

/// One channel for each pen.
pub type Channels = Vec<Channel>;

/// The largest measure, in lattice units, that a calibration may hold and
/// the farthest that a point may lie from the origin when it is turned
/// into cord lengths.
pub const MAX_SPAN: i32 = 500_000_000;

/// The machine and the area it draws on, in lattice units.
#[derive(Copy, Clone, Debug, PartialEq, Eq, Structural)]
pub struct Calibration {
    /// Distance between the shafts of the two motors.
    pub base_width: i32,
    /// Vertical distance between the centre of the drawing plane and the
    /// shafts of the motors.
    pub base_height: i32,
    /// Largest width of a drawing.
    pub drawing_width: i32,
    /// Largest height of a drawing.
    pub drawing_height: i32,
}

/// Why a set of channels cannot be fitted into the drawing area.
#[derive(Copy, Clone, Debug, PartialEq, Eq, Structural)]
pub enum CalibrationError {
    /// The channels hold no point at all.
    NoPoints,
    /// All points share one x coordinate or one y coordinate, or would
    /// share one on the lattice once the drawing is fitted into the drawing
    /// area.
    ZeroExtent,
}

/// The smallest upright rectangle that holds a set of points.
#[derive(Copy, Clone, Debug, PartialEq, Eq, Structural)]
pub struct Bounds {
    pub min_x: i32,
    pub max_x: i32,
    pub min_y: i32,
    pub max_y: i32,
}

/// The channels as sequences of points.
pub open spec fn grid(channels: &Vec<Vec<Point>>) -> Seq<Seq<Point>> {
    Seq::new(channels.len() as nat, |c: int| channels[c]@)
}

/// `i` is the place of a point in channel `c`.
pub open spec fn in_grid(chs: Seq<Seq<Point>>, c: int, i: int) -> bool {
    0 <= c < chs.len() && 0 <= i < chs[c].len()
}

/// Whether any channel holds a point.
pub open spec fn has_points(chs: Seq<Seq<Point>>) -> bool {
    exists|c: int, i: int| in_grid(chs, c, i)
}

/// Every point lies within `b`, and each side of `b` passes through a point.
pub open spec fn is_bounds(chs: Seq<Seq<Point>>, b: Bounds) -> bool {
    &&& forall|c: int, i: int| #[trigger]
        in_grid(chs, c, i) ==> b.min_x <= chs[c][i].x <= b.max_x && b.min_y <= chs[c][i].y
            <= b.max_y
    &&& exists|c: int, i: int| #[trigger] in_grid(chs, c, i) && chs[c][i].x == b.min_x
    &&& exists|c: int, i: int| #[trigger] in_grid(chs, c, i) && chs[c][i].x == b.max_x
    &&& exists|c: int, i: int| #[trigger] in_grid(chs, c, i) && chs[c][i].y == b.min_y
    &&& exists|c: int, i: int| #[trigger] in_grid(chs, c, i) && chs[c][i].y == b.max_y
}

/// The bounding box of the points of all channels together.
pub closed spec fn bounds_of(chs: Seq<Seq<Point>>) -> Bounds {
    choose|b: Bounds| is_bounds(chs, b)
}

/// A set of points has at most one bounding box.
pub proof fn lemma_bounds_unique(chs: Seq<Seq<Point>>, a: Bounds, b: Bounds)
    requires
        is_bounds(chs, a),
        is_bounds(chs, b),
    ensures
        a == b,
{
}

/// The bounding box of `chs` is `b` as soon as `b` bounds its points.
pub proof fn lemma_bounds_of(chs: Seq<Seq<Point>>, b: Bounds)
    requires
        is_bounds(chs, b),
    ensures
        bounds_of(chs) == b,
{
    lemma_bounds_unique(chs, bounds_of(chs), b);
}

/// Among the points of `chs` there is one at which `key` is least.
proof fn lemma_least(chs: Seq<Seq<Point>>, key: spec_fn(Point) -> int, c: int, i: int) -> (m: (
    int,
    int,
))
    requires
        in_grid(chs, c, i),
        forall|p: Point| #[trigger] key(p) >= -0x8000_0000,
    ensures
        in_grid(chs, m.0, m.1),
        forall|d: int, j: int| #[trigger] in_grid(chs, d, j) ==> key(chs[m.0][m.1]) <= key(chs[d][j]),
    decreases key(chs[c][i]) + 0x8000_0000,
{
    if forall|d: int, j: int| #[trigger] in_grid(chs, d, j) ==> key(chs[c][i]) <= key(chs[d][j]) {
        (c, i)
    } else {
        let (d, j) = choose|d: int, j: int| #[trigger]
            in_grid(chs, d, j) && !(key(chs[c][i]) <= key(chs[d][j]));
        lemma_least(chs, key, d, j)
    }
}

/// Channels that hold a point have a bounding box.
pub proof fn lemma_bounds_exist(chs: Seq<Seq<Point>>)
    requires
        has_points(chs),
    ensures
        is_bounds(chs, bounds_of(chs)),
{
    let (c, i) = choose|c: int, i: int| in_grid(chs, c, i);
    let left = lemma_least(chs, |p: Point| p.x as int, c, i);
    let right = lemma_least(chs, |p: Point| -(p.x as int), c, i);
    let low = lemma_least(chs, |p: Point| p.y as int, c, i);
    let high = lemma_least(chs, |p: Point| -(p.y as int), c, i);
    let b = Bounds {
        min_x: chs[left.0][left.1].x,
        max_x: chs[right.0][right.1].x,
        min_y: chs[low.0][low.1].y,
        max_y: chs[high.0][high.1].y,
    };
    assert(in_grid(chs, left.0, left.1));
    assert(in_grid(chs, right.0, right.1));
    assert(in_grid(chs, low.0, low.1));
    assert(in_grid(chs, high.0, high.1));
    assert(is_bounds(chs, b));
}

/// Finds the bounding box of the points of all channels together.
pub fn bounding_box(channels: &Vec<Vec<Point>>) -> (r: Option<Bounds>)
    ensures
        match r {
            Some(b) => is_bounds(grid(channels), b),
            None => !has_points(grid(channels)),
        },
{
    let ghost chs = grid(channels);
    let mut found: Option<Bounds> = None;
    let mut c: usize = 0;
    while c < channels.len()
        invariant
            c <= channels.len(),
            chs == grid(channels),
            match found {
                Some(b) => is_bounds(chs.take(c as int), b),
                None => !has_points(chs.take(c as int)),
            },
        decreases channels.len() - c,
    {
        let channel = &channels[c];
        let ghost before = chs.take(c as int);
        let ghost after = chs.take(c + 1);
        proof {
            assert forall|d: int, j: int| #[trigger] in_grid(after, d, j) && d < c implies in_grid(
                before,
                d,
                j,
            ) && after[d][j] == before[d][j] by {}
            match found {
                Some(b) => {
                    let w = choose|d: int, j: int| #[trigger]
                        in_grid(before, d, j) && before[d][j].x == b.min_x;
                    assert(in_grid(after, w.0, w.1));
                    let w = choose|d: int, j: int| #[trigger]
                        in_grid(before, d, j) && before[d][j].x == b.max_x;
                    assert(in_grid(after, w.0, w.1));
                    let w = choose|d: int, j: int| #[trigger]
                        in_grid(before, d, j) && before[d][j].y == b.min_y;
                    assert(in_grid(after, w.0, w.1));
                    let w = choose|d: int, j: int| #[trigger]
                        in_grid(before, d, j) && before[d][j].y == b.max_y;
                    assert(in_grid(after, w.0, w.1));
                },
                None => {
                    assert forall|d: int, j: int| #[trigger] in_grid(after, d, j) implies !(d < c) by {
                        if d < c {
                            assert(in_grid(before, d, j));
                        }
                    }
                },
            }
        }
        let mut i: usize = 0;
        while i < channel.len()
            invariant
                i <= channel.len(),
                c < channels.len(),
                chs == grid(channels),
                channel@ == chs[c as int],
                before == chs.take(c as int),
                after == chs.take(c + 1),
                match found {
                    Some(b) => {
                        &&& forall|d: int, j: int| #[trigger]
                            in_grid(after, d, j) && (d < c || j < i) ==> b.min_x <= after[d][j].x
                                <= b.max_x && b.min_y <= after[d][j].y <= b.max_y
                        &&& exists|d: int, j: int| #[trigger]
                            in_grid(after, d, j) && (d < c || j < i) && after[d][j].x == b.min_x
                        &&& exists|d: int, j: int| #[trigger]
                            in_grid(after, d, j) && (d < c || j < i) && after[d][j].x == b.max_x
                        &&& exists|d: int, j: int| #[trigger]
                            in_grid(after, d, j) && (d < c || j < i) && after[d][j].y == b.min_y
                        &&& exists|d: int, j: int| #[trigger]
                            in_grid(after, d, j) && (d < c || j < i) && after[d][j].y == b.max_y
                    },
                    None => forall|d: int, j: int| #[trigger]
                        in_grid(after, d, j) ==> !(d < c || j < i),
                },
            decreases channel.len() - i,
        {
            let p = channel[i];
            assert(in_grid(after, c as int, i as int));
            let next = match found {
                None => Bounds { min_x: p.x, max_x: p.x, min_y: p.y, max_y: p.y },
                Some(b) => Bounds {
                    min_x: if p.x < b.min_x { p.x } else { b.min_x },
                    max_x: if p.x > b.max_x { p.x } else { b.max_x },
                    min_y: if p.y < b.min_y { p.y } else { b.min_y },
                    max_y: if p.y > b.max_y { p.y } else { b.max_y },
                },
            };
            found = Some(next);
            i += 1;
        }
        proof {
            match found {
                Some(b) => {
                    assert(is_bounds(after, b));
                },
                None => {
                    assert(!has_points(after));
                },
            }
        }
        c += 1;
    }
    assert(chs.take(c as int) == chs);
    found
}

impl Calibration {
    /// All four measures are positive and none exceeds `MAX_SPAN`.
    pub open spec fn well_formed(&self) -> bool {
        &&& 0 < self.base_width <= MAX_SPAN
        &&& 0 < self.base_height <= MAX_SPAN
        &&& 0 < self.drawing_width <= MAX_SPAN
        &&& 0 < self.drawing_height <= MAX_SPAN
    }

    /// Tells whether the calibration is well formed.
    pub fn is_valid(&self) -> (ok: bool)
        ensures
            ok == self.well_formed(),
    {
        0 < self.base_width && self.base_width <= MAX_SPAN && 0 < self.base_height
            && self.base_height <= MAX_SPAN && 0 < self.drawing_width && self.drawing_width
            <= MAX_SPAN && 0 < self.drawing_height && self.drawing_height <= MAX_SPAN
    }

    /// Whether the width of the drawing area is what limits the scale of a
    /// drawing with the bounding box `b`: the drawing area is at least as
    /// tall, for its width, as the box.
    pub open spec fn width_limits(&self, b: Bounds) -> bool {
        self.drawing_width * (b.max_y - b.min_y) <= self.drawing_height * (b.max_x - b.min_x)
    }

    /// The numerator of the scale: the side of the drawing area that limits it.
    pub open spec fn scale_num(&self, b: Bounds) -> int {
        if self.width_limits(b) {
            self.drawing_width as int
        } else {
            self.drawing_height as int
        }
    }

    /// The denominator of the scale: the matching side of the bounding box.
    pub open spec fn scale_den(&self, b: Bounds) -> int {
        if self.width_limits(b) {
            b.max_x - b.min_x
        } else {
            b.max_y - b.min_y
        }
    }

    /// Where a coordinate `v` between `lo` and `hi` comes to lie: its
    /// offset from the middle of `lo` and `hi`, scaled, and rounded to the
    /// nearest lattice unit (halves round up).
    pub open spec fn placed_coordinate(&self, b: Bounds, lo: int, hi: int, v: int) -> int {
        ((2 * v - hi - lo) * self.scale_num(b) + self.scale_den(b)) / (2 * self.scale_den(b))
    }

    /// Where a point of a drawing with the bounding box `b` comes to lie.
    pub open spec fn placed(&self, b: Bounds, p: Point) -> Point {
        Point {
            x: self.placed_coordinate(b, b.min_x as int, b.max_x as int, p.x as int) as i32,
            y: self.placed_coordinate(b, b.min_y as int, b.max_y as int, p.y as int) as i32,
        }
    }

    /// The channels, moved so that their bounding box is centred at the
    /// origin and scaled by the smaller of the two factors that bring its
    /// width to the width and its height to the height of the drawing area.
    /// Channels without a point are refused, and so are channels whose
    /// bounding box has no width or no height, before or after the scaling.
    pub open spec fn translated(&self, chs: Seq<Seq<Point>>) -> Result<
        Seq<Seq<Point>>,
        CalibrationError,
    > {
        if !has_points(chs) {
            Err(CalibrationError::NoPoints)
        } else if bounds_of(chs).min_x == bounds_of(chs).max_x || bounds_of(chs).min_y
            == bounds_of(chs).max_y || self.flattens(bounds_of(chs)) {
            Err(CalibrationError::ZeroExtent)
        } else {
            Ok(
                Seq::new(
                    chs.len(),
                    |c: int| Seq::new(chs[c].len(), |i: int| self.placed(bounds_of(chs), chs[c][i])),
                ),
            )
        }
    }

    /// Centres the bounding box of all channels at the origin and scales
    /// it, keeping its proportions, to fill the drawing area in width or in
    /// height.
    pub fn translate_origin(&self, channels: &Vec<Vec<Point>>) -> (r: Result<
        Vec<Vec<Point>>,
        CalibrationError,
    >)
        requires
            self.well_formed(),
        ensures
            match r {
                Ok(out) => self.translated(grid(channels)) == Ok::<
                    Seq<Seq<Point>>,
                    CalibrationError,
                >(grid(&out)),
                Err(e) => self.translated(grid(channels)) == Err::<Seq<Seq<Point>>, CalibrationError>(
                    e,
                ),
            },
            r matches Ok(out) ==> forall|c: int, i: int| #[trigger]
                in_grid(grid(&out), c, i) ==> within_reach(out[c][i]),
            r matches Ok(out) ==> self.translated(grid(&out)) == Ok::<
                Seq<Seq<Point>>,
                CalibrationError,
            >(grid(&out)),
    {
        let ghost chs = grid(channels);
        let b = match bounding_box(channels) {
            None => {
                return Err(CalibrationError::NoPoints);
            },
            Some(b) => b,
        };
        proof {
            lemma_bounds_of(chs, b);
            let (c, i) = choose|c: int, i: int| #[trigger] in_grid(chs, c, i) && chs[c][i].x == b.min_x;
            assert(in_grid(chs, c, i));
        }
        if b.min_x == b.max_x || b.min_y == b.max_y {
            return Err(CalibrationError::ZeroExtent);
        }
        let dx: i64 = b.max_x as i64 - b.min_x as i64;
        let dy: i64 = b.max_y as i64 - b.min_y as i64;
        assert(self.drawing_width * dy <= 500_000_000 * 0xffff_ffff) by (nonlinear_arith)
            requires
                0 < self.drawing_width <= 500_000_000,
                0 < dy <= 0xffff_ffff,
        ;
        assert(self.drawing_height * dx <= 500_000_000 * 0xffff_ffff) by (nonlinear_arith)
            requires
                0 < self.drawing_height <= 500_000_000,
                0 < dx <= 0xffff_ffff,
        ;
        let by_width: bool = self.drawing_width as i64 * dy <= self.drawing_height as i64 * dx;
        let num: i64 = if by_width { self.drawing_width as i64 } else { self.drawing_height as i64 };
        let den: i64 = if by_width { dx } else { dy };
        proof {
            self.lemma_placed_fits(b, Point { x: b.min_x, y: b.min_y });
            self.lemma_placed_fits(b, Point { x: b.max_x, y: b.max_y });
        }
        let left = place(num, den, b.min_x, b.max_x, b.min_x);
        let right = place(num, den, b.min_x, b.max_x, b.max_x);
        let low = place(num, den, b.min_y, b.max_y, b.min_y);
        let high = place(num, den, b.min_y, b.max_y, b.max_y);
        if left == right || low == high {
            return Err(CalibrationError::ZeroExtent);
        }
        let mut result: Vec<Vec<Point>> = Vec::with_capacity(channels.len());
        let mut c: usize = 0;
        while c < channels.len()
            invariant
                c <= channels.len(),
                self.well_formed(),
                chs == grid(channels),
                is_bounds(chs, b),
                b.min_x < b.max_x,
                b.min_y < b.max_y,
                num == self.scale_num(b),
                den == self.scale_den(b),
                result.len() == c,
                forall|d: int| 0 <= d < c ==> #[trigger] result[d]@ == Seq::new(
                    chs[d].len(),
                    |i: int| self.placed(b, chs[d][i]),
                ),
            decreases channels.len() - c,
        {
            let channel = &channels[c];
            let mut moved: Vec<Point> = Vec::with_capacity(channel.len());
            let mut i: usize = 0;
            while i < channel.len()
                invariant
                    i <= channel.len(),
                    c < channels.len(),
                    self.well_formed(),
                    chs == grid(channels),
                    channel@ == chs[c as int],
                    is_bounds(chs, b),
                    b.min_x < b.max_x,
                    b.min_y < b.max_y,
                    num == self.scale_num(b),
                    den == self.scale_den(b),
                    moved.len() == i,
                    forall|j: int| 0 <= j < i ==> #[trigger] moved[j] == self.placed(b, chs[c as int][j]),
                decreases channel.len() - i,
            {
                let p = channel[i];
                assert(in_grid(chs, c as int, i as int));
                proof {
                    self.lemma_placed_fits(b, p);
                }
                let x = place(num, den, b.min_x, b.max_x, p.x);
                let y = place(num, den, b.min_y, b.max_y, p.y);
                moved.push(Point { x, y });
                i += 1;
            }
            assert(moved@ =~= Seq::new(chs[c as int].len(), |i: int| self.placed(b, chs[c as int][i])));
            result.push(moved);
            c += 1;
        }
        assert(grid(&result) =~= self.translated(chs)->Ok_0);
        proof {
            self.lemma_translated_within_reach(chs);
            self.lemma_translate_origin_idempotent(chs);
        }
        Ok(result)
    }

    /// The bounding box of a drawing with the bounding box `b`, once placed.
    pub open spec fn placed_bounds(&self, b: Bounds) -> Bounds {
        Bounds {
            min_x: self.placed(b, Point { x: b.min_x, y: b.min_y }).x,
            max_x: self.placed(b, Point { x: b.max_x, y: b.max_y }).x,
            min_y: self.placed(b, Point { x: b.min_x, y: b.min_y }).y,
            max_y: self.placed(b, Point { x: b.max_x, y: b.max_y }).y,
        }
    }

    /// Whether a drawing with the bounding box `b` is so flat, or so thin,
    /// that once placed all its points would share a coordinate.
    pub open spec fn flattens(&self, b: Bounds) -> bool {
        self.placed_bounds(b).min_x == self.placed_bounds(b).max_x || self.placed_bounds(b).min_y
            == self.placed_bounds(b).max_y
    }

    /// Placing a drawing a second time changes nothing: channels that
    /// `translate_origin` has returned come back from it as they are.
    pub proof fn lemma_translate_origin_idempotent(&self, chs: Seq<Seq<Point>>)
        requires
            self.well_formed(),
            self.translated(chs) is Ok,
        ensures
            self.translated(self.translated(chs)->Ok_0) == self.translated(chs),
    {
        let b = bounds_of(chs);
        let out = self.translated(chs)->Ok_0;
        let pb = self.placed_bounds(b);
        lemma_bounds_exist(chs);
        self.lemma_placed_bounds(chs);
        lemma_bounds_of(out, pb);
        let w = choose|c: int, i: int| in_grid(chs, c, i);
        assert(in_grid(out, w.0, w.1));
        self.lemma_unit_scale(b);
        let n = self.scale_den(pb);
        // the placed box is placed onto itself
        lemma_rounded_unit(pb.min_x as int, pb.max_x + pb.min_x, n);
        lemma_rounded_unit(pb.max_x as int, pb.max_x + pb.min_x, n);
        lemma_rounded_unit(pb.min_y as int, pb.max_y + pb.min_y, n);
        lemma_rounded_unit(pb.max_y as int, pb.max_y + pb.min_y, n);
        assert(self.placed_bounds(pb) == pb);
        let again = self.translated(out)->Ok_0;
        assert forall|c: int, i: int| #[trigger] in_grid(out, c, i) implies self.placed(
            pb,
            out[c][i],
        ) == out[c][i] by {
            let p = out[c][i];
            lemma_rounded_unit(p.x as int, pb.max_x + pb.min_x, n);
            lemma_rounded_unit(p.y as int, pb.max_y + pb.min_y, n);
        }
        assert forall|c: int| 0 <= c < out.len() implies #[trigger] again[c] == out[c] by {
            assert forall|i: int| 0 <= i < out[c].len() implies #[trigger] again[c][i]
                == out[c][i] by {
                assert(in_grid(out, c, i));
            }
            assert(again[c] =~= out[c]);
        }
        assert(again =~= out);
    }

    /// After placing, the corners of the bounding box bound the drawing,
    /// and their coordinates add up to nothing or to one.
    pub proof fn lemma_placed_bounds(&self, chs: Seq<Seq<Point>>)
        requires
            self.well_formed(),
            self.translated(chs) is Ok,
        ensures
            is_bounds(self.translated(chs)->Ok_0, self.placed_bounds(bounds_of(chs))),
            0 <= self.placed_bounds(bounds_of(chs)).min_x + self.placed_bounds(bounds_of(chs)).max_x
                <= 1,
            0 <= self.placed_bounds(bounds_of(chs)).min_y + self.placed_bounds(bounds_of(chs)).max_y
                <= 1,
    {
        let b = bounds_of(chs);
        let out = self.translated(chs)->Ok_0;
        let pb = self.placed_bounds(b);
        let num = self.scale_num(b);
        let den = self.scale_den(b);
        let lo = Point { x: b.min_x, y: b.min_y };
        let hi = Point { x: b.max_x, y: b.max_y };
        lemma_bounds_exist(chs);
        self.lemma_placed_fits(b, lo);
        self.lemma_placed_fits(b, hi);
        assert forall|c: int, i: int| #[trigger] in_grid(out, c, i) implies pb.min_x
            <= out[c][i].x <= pb.max_x && pb.min_y <= out[c][i].y <= pb.max_y by {
            assert(in_grid(chs, c, i));
            let p = chs[c][i];
            self.lemma_placed_fits(b, p);
            assert((2 * b.min_x - b.max_x - b.min_x) * num <= (2 * p.x - b.max_x - b.min_x) * num
                <= (2 * b.max_x - b.max_x - b.min_x) * num) by (nonlinear_arith)
                requires
                    b.min_x <= p.x <= b.max_x,
                    num > 0,
            ;
            assert((2 * b.min_y - b.max_y - b.min_y) * num <= (2 * p.y - b.max_y - b.min_y) * num
                <= (2 * b.max_y - b.max_y - b.min_y) * num) by (nonlinear_arith)
                requires
                    b.min_y <= p.y <= b.max_y,
                    num > 0,
            ;
            lemma_rounded_monotonic(
                (2 * b.min_x - b.max_x - b.min_x) * num,
                (2 * p.x - b.max_x - b.min_x) * num,
                den,
            );
            lemma_rounded_monotonic(
                (2 * p.x - b.max_x - b.min_x) * num,
                (2 * b.max_x - b.max_x - b.min_x) * num,
                den,
            );
            lemma_rounded_monotonic(
                (2 * b.min_y - b.max_y - b.min_y) * num,
                (2 * p.y - b.max_y - b.min_y) * num,
                den,
            );
            lemma_rounded_monotonic(
                (2 * p.y - b.max_y - b.min_y) * num,
                (2 * b.max_y - b.max_y - b.min_y) * num,
                den,
            );
        }
        let w = choose|c: int, i: int| #[trigger] in_grid(chs, c, i) && chs[c][i].x == b.min_x;
        self.lemma_placed_fits(b, chs[w.0][w.1]);
        assert(in_grid(out, w.0, w.1) && out[w.0][w.1].x == pb.min_x);
        let w = choose|c: int, i: int| #[trigger] in_grid(chs, c, i) && chs[c][i].x == b.max_x;
        self.lemma_placed_fits(b, chs[w.0][w.1]);
        assert(in_grid(out, w.0, w.1) && out[w.0][w.1].x == pb.max_x);
        let w = choose|c: int, i: int| #[trigger] in_grid(chs, c, i) && chs[c][i].y == b.min_y;
        self.lemma_placed_fits(b, chs[w.0][w.1]);
        assert(in_grid(out, w.0, w.1) && out[w.0][w.1].y == pb.min_y);
        let w = choose|c: int, i: int| #[trigger] in_grid(chs, c, i) && chs[c][i].y == b.max_y;
        self.lemma_placed_fits(b, chs[w.0][w.1]);
        assert(in_grid(out, w.0, w.1) && out[w.0][w.1].y == pb.max_y);
        let ax = (b.max_x - b.min_x) * num;
        let ay = (b.max_y - b.min_y) * num;
        lemma_corner_offsets(b.min_x as int, b.max_x as int, num);
        lemma_corner_offsets(b.min_y as int, b.max_y as int, num);
        lemma_rounded_opposites(ax, den);
        lemma_rounded_opposites(ay, den);
    }

    /// A drawing that fills the drawing area in width or in height is
    /// placed at scale one.
    pub proof fn lemma_unit_scale(&self, b: Bounds)
        requires
            self.well_formed(),
            b.min_x < b.max_x,
            b.min_y < b.max_y,
            !self.flattens(b),
        ensures
            self.scale_num(self.placed_bounds(b)) == self.scale_den(self.placed_bounds(b)),
            self.scale_den(self.placed_bounds(b)) > 0,
    {
        let pb = self.placed_bounds(b);
        let num = self.scale_num(b);
        let den = self.scale_den(b);
        let dw = self.drawing_width as int;
        let dh = self.drawing_height as int;
        let dx = b.max_x - b.min_x;
        let dy = b.max_y - b.min_y;
        let lo = Point { x: b.min_x, y: b.min_y };
        let hi = Point { x: b.max_x, y: b.max_y };
        self.lemma_placed_fits(b, lo);
        self.lemma_placed_fits(b, hi);
        let ax = dx * num;
        let ay = dy * num;
        lemma_corner_offsets(b.min_x as int, b.max_x as int, num);
        lemma_corner_offsets(b.min_y as int, b.max_y as int, num);
        lemma_rounded_monotonic(-ax, ax, den);
        lemma_rounded_monotonic(-ay, ay, den);
        let px = pb.max_x - pb.min_x;
        let py = pb.max_y - pb.min_y;
        assert(0 < px <= dw && 0 < py <= dh);
        if self.width_limits(b) {
            assert(ax == dw * den) by (nonlinear_arith)
                requires
                    ax == dx * num,
                    num == dw,
                    den == dx,
            ;
            lemma_rounded_span(dw, den);
            assert(-ax == -dw * den) by (nonlinear_arith)
                requires
                    ax == dw * den,
            ;
            assert(px == dw);
        } else {
            assert(ay == dh * den) by (nonlinear_arith)
                requires
                    ay == dy * num,
                    num == dh,
                    den == dy,
            ;
            lemma_rounded_span(dh, den);
            assert(-ay == -dh * den) by (nonlinear_arith)
                requires
                    ay == dh * den,
            ;
            assert(py == dh);
        }
        assert((dw * py <= dh * px) ==> px == dw) by (nonlinear_arith)
            requires
                0 < px <= dw,
                0 < py <= dh,
                px == dw || py == dh,
        ;
        assert(!(dw * py <= dh * px) ==> py == dh) by (nonlinear_arith)
            requires
                0 < px <= dw,
                0 < py <= dh,
                px == dw || py == dh,
        ;
    }

    /// Every point that `translate_origin` returns can be turned into
    /// cord lengths.
    pub proof fn lemma_translated_within_reach(&self, chs: Seq<Seq<Point>>)
        requires
            self.well_formed(),
            self.translated(chs) is Ok,
        ensures
            forall|c: int, i: int| #[trigger]
                in_grid(self.translated(chs)->Ok_0, c, i) ==> within_reach(
                    self.translated(chs)->Ok_0[c][i],
                ),
    {
        let b = bounds_of(chs);
        let out = self.translated(chs)->Ok_0;
        lemma_bounds_exist(chs);
        assert forall|c: int, i: int| #[trigger] in_grid(out, c, i) implies within_reach(
            out[c][i],
        ) by {
            assert(in_grid(chs, c, i));
            self.lemma_placed_fits(b, chs[c][i]);
        }
    }

    /// Four times the square of the distance from `pt`, with its y axis
    /// turned upwards, to a motor shaft that lies `shaft_x / 2` to the
    /// right of the origin and `base_height` above it.
    pub open spec fn cord_sq4(&self, shaft_x: int, pt: Point) -> nat {
        ((shaft_x - 2 * pt.x) * (shaft_x - 2 * pt.x) + 4 * ((self.base_height + pt.y) * (
        self.base_height + pt.y))) as nat
    }

    /// The length of the cord from the left motor to `pt`, rounded to the
    /// nearest lattice unit.
    pub open spec fn left_cord(&self, pt: Point) -> nat {
        half_root(self.cord_sq4(-self.base_width, pt))
    }

    /// The length of the cord from the right motor to `pt`, rounded to the
    /// nearest lattice unit.
    pub open spec fn right_cord(&self, pt: Point) -> nat {
        half_root(self.cord_sq4(self.base_width as int, pt))
    }

    /// The lengths of the two cords when the pen is at `pt`, less their
    /// lengths when it is at the origin.
    pub open spec fn homed(&self, pt: Point) -> Point {
        Point {
            x: (self.left_cord(pt) - self.left_cord(Point { x: 0, y: 0 })) as i32,
            y: (self.right_cord(pt) - self.right_cord(Point { x: 0, y: 0 })) as i32,
        }
    }

    /// No cord to a point within reach is longer than 1 250 000 000 units.
    pub proof fn lemma_cord_bounded(&self, shaft_x: int, pt: Point)
        requires
            self.well_formed(),
            within_reach(pt),
            shaft_x == self.base_width || shaft_x == -self.base_width,
        ensures
            self.cord_sq4(shaft_x, pt) <= 6_250_000_000_000_000_000,
            half_root(self.cord_sq4(shaft_x, pt)) <= 1_250_000_000,
    {
        let h = shaft_x - 2 * pt.x;
        let v = self.base_height + pt.y;
        assert(h * h <= 1_500_000_000 * 1_500_000_000) by (nonlinear_arith)
            requires
                -1_500_000_000 <= h <= 1_500_000_000,
        ;
        assert(v * v <= 1_000_000_000 * 1_000_000_000) by (nonlinear_arith)
            requires
                -1_000_000_000 <= v <= 1_000_000_000,
        ;
        assert(h * h >= 0 && v * v >= 0) by (nonlinear_arith);
        assert(6_250_000_000_000_000_000 == 2_500_000_000 * 2_500_000_000) by (nonlinear_arith);
        lemma_floor_root_below(self.cord_sq4(shaft_x, pt), 2_500_000_000);
    }

    /// The pen hangs on two cords of one length wherever it is on the
    /// vertical through the middle of the motors.
    pub proof fn lemma_cords_equal_on_axis(&self, pt: Point)
        requires
            pt.x == 0,
        ensures
            self.left_cord(pt) == self.right_cord(pt),
    {
        let w = self.base_width as int;
        assert((-w - 2 * 0) * (-w - 2 * 0) == (w - 2 * 0) * (w - 2 * 0)) by (nonlinear_arith);
    }

    /// The lengths of the two cords, from the left and from the right
    /// motor, when the pen is at `pt`, whatever the machine and wherever
    /// the pen.
    ///
    /// The drawing plane's y axis points down and the machine's up. A point
    /// on the vertical through the middle of the motors has two cords of
    /// one length.
    pub fn cords(&self, pt: &Point) -> (r: (u64, u64))
        ensures
            r.0 == self.left_cord(*pt),
            r.1 == self.right_cord(*pt),
            pt.x == 0 ==> r.0 == r.1,
    {
        proof {
            if pt.x == 0 {
                self.lemma_cords_equal_on_axis(*pt);
            }
        }
        let a = cord(-(self.base_width as i64), self.base_height, pt);
        let b = cord(self.base_width as i64, self.base_height, pt);
        (a, b)
    }

    /// The lengths of the two cords, from the left and from the right
    /// motor, when the pen is at `pt`, as a point of the machine's plane.
    ///
    /// A point on the vertical through the middle of the motors has two
    /// cords of one length.
    pub fn apply(&self, pt: &Point) -> (r: Point)
        requires
            self.well_formed(),
            within_reach(*pt),
        ensures
            r.x == self.left_cord(*pt),
            r.y == self.right_cord(*pt),
            pt.x == 0 ==> r.x == r.y,
    {
        proof {
            self.lemma_cord_bounded(-self.base_width, *pt);
            self.lemma_cord_bounded(self.base_width as int, *pt);
        }
        let (a, b) = self.cords(pt);
        Point { x: a as i32, y: b as i32 }
    }

    /// The cord lengths for every point of a channel, counted from the
    /// lengths at the origin.
    pub fn transform_single_channel(&self, channel: &Vec<Point>) -> (r: Vec<Point>)
        requires
            self.well_formed(),
            forall|i: int| 0 <= i < channel.len() ==> within_reach(#[trigger] channel[i]),
        ensures
            r@ == Seq::new(channel.len() as nat, |i: int| self.homed(channel[i])),
    {
        let home = self.apply(&Point::origin());
        let mut r: Vec<Point> = Vec::with_capacity(channel.len());
        let mut i: usize = 0;
        while i < channel.len()
            invariant
                i <= channel.len(),
                self.well_formed(),
                forall|j: int| 0 <= j < channel.len() ==> within_reach(#[trigger] channel[j]),
                home.x == self.left_cord(Point { x: 0, y: 0 }),
                home.y == self.right_cord(Point { x: 0, y: 0 }),
                r.len() == i,
                forall|j: int| 0 <= j < i ==> #[trigger] r[j] == self.homed(channel[j]),
            decreases channel.len() - i,
        {
            let at = self.apply(&channel[i]);
            proof {
                self.lemma_cord_bounded(-self.base_width, channel[i as int]);
                self.lemma_cord_bounded(self.base_width as int, channel[i as int]);
                self.lemma_cord_bounded(-self.base_width, Point { x: 0, y: 0 });
                self.lemma_cord_bounded(self.base_width as int, Point { x: 0, y: 0 });
            }
            r.push(Point { x: at.x - home.x, y: at.y - home.y });
            i += 1;
        }
        assert(r@ =~= Seq::new(channel.len() as nat, |i: int| self.homed(channel[i])));
        r
    }

    /// The cord lengths for every point of every channel, counted from the
    /// lengths at the origin.
    pub fn transform_coordinates(&self, channels: &Vec<Vec<Point>>) -> (r: Vec<Vec<Point>>)
        requires
            self.well_formed(),
            forall|c: int, i: int| #[trigger]
                in_grid(grid(channels), c, i) ==> within_reach(channels[c][i]),
        ensures
            grid(&r) == Seq::new(
                channels.len() as nat,
                |c: int| Seq::new(channels[c].len() as nat, |i: int| self.homed(channels[c][i])),
            ),
    {
        let mut r: Vec<Vec<Point>> = Vec::with_capacity(channels.len());
        let mut c: usize = 0;
        while c < channels.len()
            invariant
                c <= channels.len(),
                self.well_formed(),
                forall|d: int, i: int| #[trigger]
                    in_grid(grid(channels), d, i) ==> within_reach(channels[d][i]),
                r.len() == c,
                forall|d: int| 0 <= d < c ==> #[trigger] r[d]@ == Seq::new(
                    channels[d].len() as nat,
                    |i: int| self.homed(channels[d][i]),
                ),
            decreases channels.len() - c,
        {
            assert forall|i: int| 0 <= i < channels[c as int].len() implies within_reach(
                #[trigger] channels[c as int][i],
            ) by {
                assert(in_grid(grid(channels), c as int, i));
            }
            let moved = self.transform_single_channel(&channels[c]);
            r.push(moved);
            c += 1;
        }
        assert(grid(&r) =~= Seq::new(
            channels.len() as nat,
            |c: int| Seq::new(channels[c].len() as nat, |i: int| self.homed(channels[c][i])),
        ));
        r
    }

    /// A placed point lies within the drawing area, give or take the
    /// rounding of its coordinates.
    pub proof fn lemma_placed_fits(&self, b: Bounds, p: Point)
        requires
            self.well_formed(),
            b.min_x < b.max_x,
            b.min_y < b.max_y,
            b.min_x <= p.x <= b.max_x,
            b.min_y <= p.y <= b.max_y,
        ensures
            -self.drawing_width <= 2 * self.placed_coordinate(
                b,
                b.min_x as int,
                b.max_x as int,
                p.x as int,
            ) <= self.drawing_width + 1,
            -self.drawing_height <= 2 * self.placed_coordinate(
                b,
                b.min_y as int,
                b.max_y as int,
                p.y as int,
            ) <= self.drawing_height + 1,
            self.placed(b, p).x == self.placed_coordinate(
                b,
                b.min_x as int,
                b.max_x as int,
                p.x as int,
            ),
            self.placed(b, p).y == self.placed_coordinate(
                b,
                b.min_y as int,
                b.max_y as int,
                p.y as int,
            ),
    {
        let dw = self.drawing_width as int;
        let dh = self.drawing_height as int;
        let dx = b.max_x - b.min_x;
        let dy = b.max_y - b.min_y;
        let num = self.scale_num(b);
        let den = self.scale_den(b);
        let t = 2 * p.x - b.max_x - b.min_x;
        let u = 2 * p.y - b.max_y - b.min_y;
        // the scaled offsets stay within half the drawing area
        assert(-dw * den <= t * num <= dw * den && -dh * den <= u * num <= dh * den)
            by (nonlinear_arith)
            requires
                -dx <= t <= dx,
                -dy <= u <= dy,
                dx > 0,
                dy > 0,
                dw > 0,
                dh > 0,
                (dw * dy <= dh * dx && num == dw && den == dx) || (dw * dy > dh * dx && num == dh
                    && den == dy),
        ;
        lemma_rounded_within(t * num, den, dw);
        lemma_rounded_within(u * num, den, dh);
    }
}

/// A quotient of a number between `-w * den` and `w * den` by `2 * den`,
/// rounded to the nearest integer, lies between `-w / 2` and `(w + 1) / 2`.
pub proof fn lemma_rounded_within(a: int, den: int, w: int)
    requires
        den > 0,
        -w * den <= a <= w * den,
    ensures
        -w <= 2 * ((a + den) / (2 * den)) <= w + 1,
{
    let q = (a + den) / (2 * den);
    lemma_floor_quotient(a + den, 2 * den, q);
    assert(2 * q <= w + 1) by (nonlinear_arith)
        requires
            q * (2 * den) <= a + den,
            a <= w * den,
            den > 0,
    ;
    assert(-w <= 2 * q) by (nonlinear_arith)
        requires
            a + den < (q + 1) * (2 * den),
            -w * den <= a,
            den > 0,
    ;
}

/// The two ends of a span lie at opposite offsets from its middle.
proof fn lemma_corner_offsets(lo: int, hi: int, num: int)
    ensures
        (2 * lo - hi - lo) * num == -((hi - lo) * num),
        (2 * hi - hi - lo) * num == (hi - lo) * num,
{
    assert((2 * lo - hi - lo) * num == -((hi - lo) * num)) by (nonlinear_arith);
    assert((2 * hi - hi - lo) * num == (hi - lo) * num) by (nonlinear_arith);
}

/// Rounding a quotient and rounding its opposite gives two numbers that add
/// up to nothing, or to one where the quotient lies halfway between two
/// integers.
pub proof fn lemma_rounded_opposites(a: int, den: int)
    requires
        den > 0,
    ensures
        0 <= (a + den) / (2 * den) + (-a + den) / (2 * den) <= 1,
{
    let p = (a + den) / (2 * den);
    let q = (-a + den) / (2 * den);
    lemma_floor_quotient(a + den, 2 * den, p);
    lemma_floor_quotient(-a + den, 2 * den, q);
    assert(0 <= p + q <= 1) by (nonlinear_arith)
        requires
            p * (2 * den) <= a + den < (p + 1) * (2 * den),
            q * (2 * den) <= -a + den < (q + 1) * (2 * den),
            den > 0,
    ;
}

/// A larger number has a larger rounded quotient.
pub proof fn lemma_rounded_monotonic(a: int, b: int, den: int)
    requires
        den > 0,
        a <= b,
    ensures
        (a + den) / (2 * den) <= (b + den) / (2 * den),
{
    vstd::arithmetic::div_mod::lemma_div_is_ordered(a + den, b + den, 2 * den);
}

/// The rounded halves of `w` and of `-w` lie `w` apart.
pub proof fn lemma_rounded_span(w: int, den: int)
    requires
        den > 0,
    ensures
        (w * den + den) / (2 * den) - (-w * den + den) / (2 * den) == w,
{
    let p = (w * den + den) / (2 * den);
    let q = (-w * den + den) / (2 * den);
    lemma_floor_quotient(w * den + den, 2 * den, p);
    lemma_floor_quotient(-w * den + den, 2 * den, q);
    assert(2 * p <= w + 1 < 2 * p + 2) by (nonlinear_arith)
        requires
            p * (2 * den) <= w * den + den < (p + 1) * (2 * den),
            den > 0,
    ;
    assert(2 * q <= 1 - w < 2 * q + 2) by (nonlinear_arith)
        requires
            q * (2 * den) <= -w * den + den < (q + 1) * (2 * den),
            den > 0,
    ;
}

/// At scale one, a coordinate between bounds that add up to `e`, which is
/// nothing or one, stays where it is.
pub proof fn lemma_rounded_unit(v: int, e: int, n: int)
    requires
        n > 0,
        0 <= e <= 1,
    ensures
        ((2 * v - e) * n + n) / (2 * n) == v,
{
    assert(v * (2 * n) <= (2 * v - e) * n + n < (v + 1) * (2 * n)) by (nonlinear_arith)
        requires
            n > 0,
            0 <= e <= 1,
    ;
    lemma_floor_quotient((2 * v - e) * n + n, 2 * n, v);
}

/// Whether a point lies close enough to the origin to be turned into cord
/// lengths.
pub open spec fn within_reach(pt: Point) -> bool {
    -MAX_SPAN <= pt.x <= MAX_SPAN && -MAX_SPAN <= pt.y <= MAX_SPAN
}

/// Tells whether a point can be turned into cord lengths.
pub fn is_within_reach(pt: &Point) -> (ok: bool)
    ensures
        ok == within_reach(*pt),
{
    -MAX_SPAN <= pt.x && pt.x <= MAX_SPAN && -MAX_SPAN <= pt.y && pt.y <= MAX_SPAN
}

/// The distance from `pt`, with its y axis turned upwards, to a shaft that
/// lies `shaft_x / 2` to the right of the origin and `rise` above it.
fn cord(shaft_x: i64, rise: i32, pt: &Point) -> (r: u64)
    requires
        -0x8000_0000 <= shaft_x <= 0x8000_0000,
    ensures
        r == half_root(
            ((shaft_x - 2 * pt.x) * (shaft_x - 2 * pt.x) + 4 * ((rise + pt.y) * (rise + pt.y))) as nat,
        ),
{
    let h: i128 = shaft_x as i128 - 2 * (pt.x as i128);
    let v: i128 = rise as i128 + pt.y as i128;
    assert(0 <= h * h <= 0x1_8000_0000 * 0x1_8000_0000) by (nonlinear_arith)
        requires
            -0x1_8000_0000 <= h <= 0x1_8000_0000,
    ;
    assert(0 <= v * v <= 0x1_0000_0000 * 0x1_0000_0000) by (nonlinear_arith)
        requires
            -0x1_0000_0000 <= v <= 0x1_0000_0000,
    ;
    let sq: i128 = h * h + 4 * (v * v);
    half_sqrt(sq as u128)
}

/// Scales the offset of `v` from the middle of `lo` and `hi` by `num / den`
/// and rounds it to the nearest integer.
fn place(num: i64, den: i64, lo: i32, hi: i32, v: i32) -> (r: i32)
    requires
        0 < num <= MAX_SPAN,
        0 < den <= 0xffff_ffff,
        lo <= v <= hi,
        -0x8000_0000 <= ((2 * v - hi - lo) * num + den) / (2 * den) <= 0x7fff_ffff,
    ensures
        r == ((2 * v - hi - lo) * num + den) / (2 * den),
{
    let t: i64 = 2 * (v as i64) - hi as i64 - lo as i64;
    assert(-0x1_0000_0000 * 500_000_000 <= t * num <= 0x1_0000_0000 * 500_000_000)
        by (nonlinear_arith)
        requires
            -0x1_0000_0000 <= t <= 0x1_0000_0000,
            0 < num <= 500_000_000,
    ;
    let a: i64 = t * num + den;
    floor_div(a as i128, 2 * den as i128) as i32
}

} // verus!
