//! Moving the points of a channel towards the dark parts of their cells.
//!
//! The plane is cut into one cell for each point, the cell of a point being
//! what lies nearer to it than to any other point. Each point then moves to
//! the centre of gravity of the corners of its cell and of their middle,
//! each weighted by how dark the picture is there.

use vstd::prelude::*;
use crate::arith::{floor_div, lemma_rounded_quotient_between, round_div, rounded_quotient};
use crate::color::{brightest, max_primary};
use crate::point::{Point, UNITS_PER_ONE};
use crate::raster::Raster;

verus! {

/// Weights are counted in parts of `1020 * WEIGHT_GRAIN`: the darkness
/// around a corner is a whole number of 1020ths, and the least weight is
/// one part.
pub const WEIGHT_GRAIN: u64 = 1_048_576;

/// Why the points of a channel could not be moved.
#[derive(Copy, Clone, Debug, PartialEq, Eq, Structural)]
pub enum RelaxError {
    /// The plane could not be cut into cells.
    PartitionFailed,
    /// There are not as many cells as points.
    CellCount,
    /// A cell has no corner.
    EmptyCell,
}

/// The column or row of pixels that a coordinate falls into, nought for a
/// coordinate left of the raster or above it.
pub open spec fn pixel_index(v: int) -> int {
    if v < 0 {
        0
    } else {
        v / UNITS_PER_ONE as int
    }
}

/// The column or row of the pixel half a pixel before a coordinate, kept
/// within a raster with `side` of them.
pub open spec fn pixel_before(v: int, side: int) -> int {
    let i = (v - UNITS_PER_ONE / 2) / UNITS_PER_ONE as int;
    if i < 0 {
        0
    } else if i >= side {
        side - 1
    } else {
        i
    }
}

/// The next column or row, or the same at the far edge of the raster.
pub open spec fn pixel_after(i: int, side: int) -> int {
    if i == side - 1 {
        i
    } else {
        i + 1
    }
}

/// How dark a pixel is, in 255ths: what its largest primary lacks of 255.
pub open spec fn dark(img: &Raster, x: int, y: int) -> nat {
    (255 - brightest(img.rgb(x, y).0, img.rgb(x, y).1, img.rgb(x, y).2)) as nat
}

/// How dark the picture is around the corner `p` of a cell, in 1020ths:
/// the darkness of the four pixels that meet nearest to `p`, added up;
/// nothing for a corner in the last column or the last row of pixels.
pub open spec fn corner_darkness(img: &Raster, p: Point) -> nat {
    if pixel_index(p.x as int) == img.width - 1 || pixel_index(p.y as int) == img.height - 1 {
        0
    } else {
        let x = pixel_before(p.x as int, img.width as int);
        let y = pixel_before(p.y as int, img.height as int);
        let x1 = pixel_after(x, img.width as int);
        let y1 = pixel_after(y, img.height as int);
        dark(img, x, y) + dark(img, x1, y) + dark(img, x1, y1) + dark(img, x, y1)
    }
}

/// How dark the picture is at the middle `c` of a cell, in 1020ths: the
/// darkness of the pixel half a pixel before `c`.
pub open spec fn middle_darkness(img: &Raster, c: Point) -> nat {
    4 * dark(
        img,
        pixel_before(c.x as int, img.width as int),
        pixel_before(c.y as int, img.height as int),
    )
}

/// The weight of a place whose darkness is `darkness` 1020ths: no place
/// weighs less than one part.
pub open spec fn weight(darkness: nat) -> nat {
    if darkness == 0 {
        1
    } else {
        darkness * WEIGHT_GRAIN as nat
    }
}

/// The coordinate of `p` along one of the two axes.
pub open spec fn along(p: Point, horizontal: bool) -> int {
    if horizontal {
        p.x as int
    } else {
        p.y as int
    }
}

/// The sum of the coordinates of the corners along one axis.
pub open spec fn sum_along(cell: Seq<Point>, horizontal: bool) -> int
    decreases cell.len(),
{
    if cell.len() == 0 {
        0
    } else {
        sum_along(cell.drop_last(), horizontal) + along(cell.last(), horizontal)
    }
}

/// The sum of the weights of the corners.
pub open spec fn corner_weights(cell: Seq<Point>, img: &Raster) -> nat
    decreases cell.len(),
{
    if cell.len() == 0 {
        0
    } else {
        corner_weights(cell.drop_last(), img) + weight(corner_darkness(img, cell.last()))
    }
}

/// The sum of the coordinates of the corners along one axis, each times
/// the weight of its corner.
pub open spec fn corner_moments(cell: Seq<Point>, img: &Raster, horizontal: bool) -> int
    decreases cell.len(),
{
    if cell.len() == 0 {
        0
    } else {
        corner_moments(cell.drop_last(), img, horizontal) + along(cell.last(), horizontal) * weight(
            corner_darkness(img, cell.last()),
        )
    }
}

/// The middle of the corners of a cell: the mean of their coordinates,
/// rounded to the nearest lattice point.
pub open spec fn middle(cell: Seq<Point>) -> Point {
    Point {
        x: rounded_quotient(sum_along(cell, true), cell.len() as int) as i32,
        y: rounded_quotient(sum_along(cell, false), cell.len() as int) as i32,
    }
}

/// Where the centre of gravity of a cell lies along one axis: the sum of
/// the coordinates of its middle and of its corners, each times its
/// weight, divided by the sum of the weights and rounded to the nearest
/// lattice unit.
pub open spec fn centre_along(cell: Seq<Point>, img: &Raster, horizontal: bool) -> int {
    rounded_quotient(
        along(middle(cell), horizontal) * weight(middle_darkness(img, middle(cell)))
            + corner_moments(cell, img, horizontal),
        (weight(middle_darkness(img, middle(cell))) + corner_weights(cell, img)) as int,
    )
}

/// The centre of gravity of a cell.
pub open spec fn centre(cell: Seq<Point>, img: &Raster) -> Point {
    Point { x: centre_along(cell, img, true) as i32, y: centre_along(cell, img, false) as i32 }
}

/// What becomes of the points of a channel when the plane has been cut
/// into `cells`, or could not be cut. Fewer than three points stay as they
/// are.
pub open spec fn relaxed(points: Seq<Point>, cells: Option<Seq<Seq<Point>>>, img: &Raster) -> Result<
    Seq<Point>,
    RelaxError,
> {
    if points.len() < 3 {
        Ok(points)
    } else {
        match cells {
            None => Err(RelaxError::PartitionFailed),
            Some(cs) => if cs.len() != points.len() {
                Err(RelaxError::CellCount)
            } else if exists|i: int| 0 <= i < cs.len() && (#[trigger] cs[i]).len() == 0 {
                Err(RelaxError::EmptyCell)
            } else {
                Ok(Seq::new(cs.len(), |i: int| centre(cs[i], img)))
            },
        }
    }
}

/// The sums over a cell stay within what its corners allow.
pub proof fn lemma_cell_sums(cell: Seq<Point>, img: &Raster, horizontal: bool)
    ensures
        -0x8000_0000 * cell.len() <= sum_along(cell, horizontal) <= 0x7fff_ffff * cell.len(),
        cell.len() <= corner_weights(cell, img) <= 1020 * WEIGHT_GRAIN * cell.len(),
        -0x8000_0000 * corner_weights(cell, img) <= corner_moments(cell, img, horizontal)
            <= 0x7fff_ffff * corner_weights(cell, img),
    decreases cell.len(),
{
    if cell.len() > 0 {
        let rest = cell.drop_last();
        lemma_cell_sums(rest, img, horizontal);
        let v = along(cell.last(), horizontal);
        let w = weight(corner_darkness(img, cell.last()));
        lemma_weight(img, cell.last());
        assert(-0x8000_0000 * w <= v * w <= 0x7fff_ffff * w) by (nonlinear_arith)
            requires
                -0x8000_0000 <= v <= 0x7fff_ffff,
                w >= 0,
        ;
        assert(-0x8000_0000 * (corner_weights(rest, img) + w) == -0x8000_0000 * corner_weights(
            rest,
            img,
        ) + -0x8000_0000 * w) by (nonlinear_arith);
        assert(0x7fff_ffff * (corner_weights(rest, img) + w) == 0x7fff_ffff * corner_weights(
            rest,
            img,
        ) + 0x7fff_ffff * w) by (nonlinear_arith);
    }
}

/// A weight is at least one part and at most `1020 * WEIGHT_GRAIN` parts.
pub proof fn lemma_weight(img: &Raster, p: Point)
    ensures
        corner_darkness(img, p) <= 1020,
        middle_darkness(img, p) <= 1020,
        1 <= weight(corner_darkness(img, p)) <= 1020 * WEIGHT_GRAIN,
        1 <= weight(middle_darkness(img, p)) <= 1020 * WEIGHT_GRAIN,
{
}

/// The centre of gravity of a cell has lattice coordinates.
pub proof fn lemma_centre_fits(cell: Seq<Point>, img: &Raster, horizontal: bool)
    requires
        cell.len() > 0,
    ensures
        -0x8000_0000 <= along(middle(cell), horizontal) <= 0x7fff_ffff,
        along(middle(cell), horizontal) == rounded_quotient(
            sum_along(cell, horizontal),
            cell.len() as int,
        ),
        -0x8000_0000 <= centre_along(cell, img, horizontal) <= 0x7fff_ffff,
{
    lemma_cell_sums(cell, img, true);
    lemma_cell_sums(cell, img, false);
    lemma_rounded_quotient_between(sum_along(cell, true), cell.len() as int, -0x8000_0000, 0x7fff_ffff);
    lemma_rounded_quotient_between(sum_along(cell, false), cell.len() as int, -0x8000_0000, 0x7fff_ffff);
    let c = middle(cell);
    let v = along(c, horizontal);
    let wc = weight(middle_darkness(img, c));
    let ws = corner_weights(cell, img);
    let m = corner_moments(cell, img, horizontal);
    lemma_weight(img, c);
    assert(-0x8000_0000 * (wc + ws) <= v * wc + m <= 0x7fff_ffff * (wc + ws)) by (nonlinear_arith)
        requires
            -0x8000_0000 <= v <= 0x7fff_ffff,
            wc >= 1,
            -0x8000_0000 * ws <= m <= 0x7fff_ffff * ws,
    ;
    lemma_rounded_quotient_between(v * wc + m, (wc + ws) as int, -0x8000_0000, 0x7fff_ffff);
}

/// Finds the column or row of the pixel half a pixel before a coordinate.
fn index_before(v: i32, side: u32) -> (i: u32)
    requires
        side > 0,
    ensures
        i == pixel_before(v as int, side as int),
        i < side,
{
    let i: i128 = floor_div(v as i128 - (UNITS_PER_ONE / 2) as i128, UNITS_PER_ONE as i128);
    if i < 0 {
        0
    } else if i >= side as i128 {
        side - 1
    } else {
        i as u32
    }
}

/// Tells how dark a pixel is.
fn darkness(img: &Raster, x: u32, y: u32) -> (d: u32)
    requires
        img.well_formed(),
        x < img.width,
        y < img.height,
    ensures
        d == dark(img, x as int, y as int),
        d <= 255,
{
    let c = img.get_pixel(x, y);
    255 - max_primary(c.0, c.1, c.2) as u32
}

/// Tells how dark the picture is around a corner of a cell.
fn darkness_around(img: &Raster, p: &Point) -> (d: u32)
    requires
        img.well_formed(),
    ensures
        d == corner_darkness(img, *p),
        d <= 1020,
{
    let column: i32 = if p.x < 0 { 0 } else { p.x / UNITS_PER_ONE };
    let row: i32 = if p.y < 0 { 0 } else { p.y / UNITS_PER_ONE };
    if column as i64 == img.width as i64 - 1 || row as i64 == img.height as i64 - 1 {
        return 0;
    }
    let x = index_before(p.x, img.width);
    let y = index_before(p.y, img.height);
    let x1 = if x == img.width - 1 { x } else { x + 1 };
    let y1 = if y == img.height - 1 { y } else { y + 1 };
    darkness(img, x, y) + darkness(img, x1, y) + darkness(img, x1, y1) + darkness(img, x, y1)
}

/// Turns a darkness into a weight.
fn weigh(darkness: u32) -> (w: u64)
    requires
        darkness <= 1020,
    ensures
        w == weight(darkness as nat),
        1 <= w <= 1020 * WEIGHT_GRAIN,
{
    if darkness == 0 {
        1
    } else {
        darkness as u64 * WEIGHT_GRAIN
    }
}

/// Finds the centre of gravity of a cell: of its corners and of their
/// middle, each weighted by how dark the picture is there.
pub fn weighted_centroid(cell: &Vec<Point>, img: &Raster) -> (r: Point)
    requires
        img.well_formed(),
        cell.len() > 0,
    ensures
        r == centre(cell@, img),
{
    let mut sum_x: i128 = 0;
    let mut sum_y: i128 = 0;
    let mut weights: i128 = 0;
    let mut moment_x: i128 = 0;
    let mut moment_y: i128 = 0;
    let mut i: usize = 0;
    while i < cell.len()
        invariant
            i <= cell.len(),
            img.well_formed(),
            sum_x == sum_along(cell@.take(i as int), true),
            sum_y == sum_along(cell@.take(i as int), false),
            weights == corner_weights(cell@.take(i as int), img),
            moment_x == corner_moments(cell@.take(i as int), img, true),
            moment_y == corner_moments(cell@.take(i as int), img, false),
        decreases cell.len() - i,
    {
        let p = cell[i];
        let w: i128 = weigh(darkness_around(img, &p)) as i128;
        proof {
            let seen = cell@.take(i as int);
            assert(cell@.take(i + 1).drop_last() =~= seen);
            lemma_cell_sums(seen, img, true);
            lemma_cell_sums(seen, img, false);
            lemma_sum_limits(i as int, corner_weights(seen, img) as int);
            assert(-0x8000_0000 * w <= p.x * w <= 0x7fff_ffff * w && -0x8000_0000 * w <= p.y * w
                <= 0x7fff_ffff * w) by (nonlinear_arith)
                requires
                    -0x8000_0000 <= p.x <= 0x7fff_ffff,
                    -0x8000_0000 <= p.y <= 0x7fff_ffff,
                    w >= 0,
            ;
        }
        sum_x = sum_x + p.x as i128;
        sum_y = sum_y + p.y as i128;
        weights = weights + w;
        moment_x = moment_x + p.x as i128 * w;
        moment_y = moment_y + p.y as i128 * w;
        i += 1;
    }
    proof {
        assert(cell@.take(i as int) =~= cell@);
        lemma_cell_sums(cell@, img, true);
        lemma_cell_sums(cell@, img, false);
        lemma_centre_fits(cell@, img, true);
        lemma_centre_fits(cell@, img, false);
        lemma_sum_limits(cell.len() as int, corner_weights(cell@, img) as int);
    }
    let count: i128 = cell.len() as i128;
    let c = Point { x: round_div(sum_x, count) as i32, y: round_div(sum_y, count) as i32 };
    let at_x = index_before(c.x, img.width);
    let at_y = index_before(c.y, img.height);
    let wc: i128 = weigh(4 * darkness(img, at_x, at_y)) as i128;
    proof {
        assert(-0x8000_0000 * wc <= c.x * wc <= 0x7fff_ffff * wc && -0x8000_0000 * wc <= c.y * wc
            <= 0x7fff_ffff * wc) by (nonlinear_arith)
            requires
                -0x8000_0000 <= c.x <= 0x7fff_ffff,
                -0x8000_0000 <= c.y <= 0x7fff_ffff,
                wc >= 0,
        ;
    }
    Point {
        x: round_div(c.x as i128 * wc + moment_x, wc + weights) as i32,
        y: round_div(c.y as i128 * wc + moment_y, wc + weights) as i32,
    }
}

/// Sums over at most 2 to the 64th corners fit into 128 bits.
proof fn lemma_sum_limits(n: int, ws: int)
    requires
        0 <= n <= 0xffff_ffff_ffff_ffff,
        0 <= ws <= 1020 * WEIGHT_GRAIN * n,
    ensures
        0x8000_0000 * n <= 0x8000_0000 * 0xffff_ffff_ffff_ffff,
        ws <= 1020 * 1_048_576 * 0xffff_ffff_ffff_ffff,
        0x8000_0000 * ws <= 0x8000_0000 * (1020 * 1_048_576 * 0xffff_ffff_ffff_ffff),
{
    assert(1020 * WEIGHT_GRAIN * n <= 1020 * 1_048_576 * 0xffff_ffff_ffff_ffff) by (nonlinear_arith)
        requires
            0 <= n <= 0xffff_ffff_ffff_ffff,
            WEIGHT_GRAIN == 1_048_576,
    ;
}

/// Moves every point of a channel to the centre of gravity of its cell.
/// `cells` holds the corners of the cell of each point, in the order of the
/// points, or nothing where the plane could not be cut into cells. Fewer
/// than three points have no cells and stay as they are.
pub fn move_points(points: Vec<Point>, cells: Option<Vec<Vec<Point>>>, img: &Raster) -> (r: Result<
    Vec<Point>,
    RelaxError,
>)
    requires
        img.well_formed(),
    ensures
        match r {
            Ok(moved) => relaxed(points@, cells_of(cells), img) == Ok::<Seq<Point>, RelaxError>(
                moved@,
            ),
            Err(e) => relaxed(points@, cells_of(cells), img) == Err::<Seq<Point>, RelaxError>(e),
        },
        points.len() < 3 ==> r == Ok::<Vec<Point>, RelaxError>(points),
        r matches Ok(moved) ==> moved.len() == points.len(),
{
    if points.len() < 3 {
        return Ok(points);
    }
    let found = match cells {
        None => {
            return Err(RelaxError::PartitionFailed);
        },
        Some(found) => found,
    };
    if found.len() != points.len() {
        return Err(RelaxError::CellCount);
    }
    let ghost cs = Seq::new(found.len() as nat, |i: int| found[i]@);
    let mut moved: Vec<Point> = Vec::with_capacity(found.len());
    let mut i: usize = 0;
    while i < found.len()
        invariant
            i <= found.len(),
            img.well_formed(),
            points.len() >= 3,
            found.len() == points.len(),
            cells_of(cells) == Some(cs),
            cs == Seq::new(found.len() as nat, |i: int| found[i]@),
            moved.len() == i,
            forall|j: int| 0 <= j < i ==> (#[trigger] cs[j]).len() > 0,
            forall|j: int| 0 <= j < i ==> #[trigger] moved[j] == centre(cs[j], img),
        decreases found.len() - i,
    {
        if found[i].len() == 0 {
            assert(cs[i as int].len() == 0);
            return Err(RelaxError::EmptyCell);
        }
        assert(cs[i as int] == found[i as int]@);
        let to = weighted_centroid(&found[i], img);
        moved.push(to);
        i += 1;
    }
    assert(moved@ =~= Seq::new(cs.len(), |i: int| centre(cs[i], img)));
    Ok(moved)
}

/// The cells as sequences of corners.
pub open spec fn cells_of(cells: Option<Vec<Vec<Point>>>) -> Option<Seq<Seq<Point>>> {
    match cells {
        None => None,
        Some(cells) => Some(Seq::new(cells.len() as nat, |i: int| cells[i]@)),
    }
}

} // verus!
