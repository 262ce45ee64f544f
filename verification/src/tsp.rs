//! Tours: the order in which a pen visits the points of a channel.
//!
//! A tour is an open path. It is built by always going to the nearest point
//! not yet visited, and shortened by reversing stretches of it.

use vstd::prelude::*;
use vstd::seq_lib::*;
use crate::arith::lemma_floor_root_below;
use crate::point::{lemma_dist_symmetric, Point};

verus! {

/// No two points lie farther apart than this many lattice units.
pub const MAX_DISTANCE: u64 = 0x2_0000_0000;

/// The length of the path through the points of `tour`, in their order: the
/// sum of the rounded distances between neighbours.
pub open spec fn tour_length(tour: Seq<Point>) -> nat
    decreases tour.len(),
{
    if tour.len() < 2 {
        0
    } else {
        tour_length(tour.drop_last()) + tour[tour.len() - 2].dist(tour[tour.len() - 1])
    }
}

/// The distance between two points is at most `MAX_DISTANCE`.
pub proof fn lemma_dist_bounded(a: Point, b: Point)
    ensures
        a.dist_sq(b) <= 0x1_ffff_fffc_0000_0002,
        a.dist(b) <= MAX_DISTANCE,
{
    let dx = a.x - b.x;
    let dy = a.y - b.y;
    assert(0 <= dx * dx <= 0xffff_ffff * 0xffff_ffff) by (nonlinear_arith)
        requires
            -0xffff_ffff <= dx <= 0xffff_ffff,
    ;
    assert(0 <= dy * dy <= 0xffff_ffff * 0xffff_ffff) by (nonlinear_arith)
        requires
            -0xffff_ffff <= dy <= 0xffff_ffff,
    ;
    assert(0x4_0000_0000 * 0x4_0000_0000 == 0x10_0000_0000_0000_0000) by (nonlinear_arith);
    lemma_floor_root_below(4 * a.dist_sq(b), 0x4_0000_0000);
}

/// A tour is no longer than `MAX_DISTANCE` for each of its points.
pub proof fn lemma_tour_length_bounded(tour: Seq<Point>)
    ensures
        tour_length(tour) <= MAX_DISTANCE * tour.len(),
    decreases tour.len(),
{
    if tour.len() >= 2 {
        lemma_tour_length_bounded(tour.drop_last());
        lemma_dist_bounded(tour[tour.len() - 2], tour[tour.len() - 1]);
        assert(MAX_DISTANCE * (tour.len() - 1) + MAX_DISTANCE == MAX_DISTANCE * tour.len())
            by (nonlinear_arith);
    } else {
        assert(MAX_DISTANCE * tour.len() >= 0) by (nonlinear_arith);
    }
}

/// The length of two paths joined is the sum of their lengths and of the
/// distance from the end of the first to the start of the second.
pub proof fn lemma_tour_length_joined(a: Seq<Point>, b: Seq<Point>)
    requires
        a.len() > 0,
        b.len() > 0,
    ensures
        tour_length(a + b) == tour_length(a) + a.last().dist(b.first()) + tour_length(b),
    decreases b.len(),
{
    let s = a + b;
    assert(s.drop_last() =~= a + b.drop_last());
    if b.len() == 1 {
        assert(a + b.drop_last() =~= a);
    } else {
        lemma_tour_length_joined(a, b.drop_last());
    }
}

/// A path is as long backwards as forwards.
pub proof fn lemma_tour_length_reversed(tour: Seq<Point>)
    ensures
        tour_length(tour.reverse()) == tour_length(tour),
    decreases tour.len(),
{
    if tour.len() >= 2 {
        let head = seq![tour.last()];
        let rest = tour.drop_last();
        assert(tour.reverse() =~= head + rest.reverse());
        lemma_tour_length_reversed(rest);
        lemma_tour_length_joined(head, rest.reverse());
        lemma_dist_symmetric(tour[tour.len() - 1], tour[tour.len() - 2]);
        assert(head.drop_last().len() == 0);
    } else {
        assert(tour.reverse().len() == tour.len());
    }
}

/// Computes the length of a tour.
pub fn total_distance(tour: &Vec<Point>) -> (d: u128)
    ensures
        d == tour_length(tour@),
{
    if tour.len() == 0 {
        return 0;
    }
    let mut d: u128 = 0;
    let mut i: usize = 1;
    assert(tour@.take(1).len() == 1);
    while i < tour.len()
        invariant
            1 <= i <= tour.len(),
            d == tour_length(tour@.take(i as int)),
        decreases tour.len() - i,
    {
        let step: u64 = tour[i - 1].distance(&tour[i]);
        proof {
            let next = tour@.take(i + 1);
            assert(next.drop_last() =~= tour@.take(i as int));
            lemma_tour_length_bounded(tour@.take(i as int));
            lemma_dist_bounded(tour[i - 1], tour[i as int]);
            assert(MAX_DISTANCE * i <= 0x2_0000_0000 * 0xffff_ffff_ffff_ffff) by (nonlinear_arith)
                requires
                    i <= 0xffff_ffff_ffff_ffff,
            ;
        }
        d = d + step as u128;
        i += 1;
    }
    assert(tour@.take(i as int) =~= tour@);
    d
}

/// `k` is the place of the first of the points of `pool` that lie nearest to
/// `from`.
pub open spec fn is_nearest(from: Point, pool: Seq<Point>, k: int) -> bool {
    &&& 0 <= k < pool.len()
    &&& forall|j: int| 0 <= j < pool.len() ==> from.dist_sq(pool[k]) <= from.dist_sq(#[trigger] pool[j])
    &&& forall|j: int| 0 <= j < k ==> from.dist_sq(pool[k]) < from.dist_sq(#[trigger] pool[j])
}

/// The place of the first of the points of `pool` that lie nearest to `from`.
pub closed spec fn nearest(from: Point, pool: Seq<Point>) -> int {
    choose|k: int| is_nearest(from, pool, k)
}

/// Only one place in a pool is that of its first nearest point.
pub proof fn lemma_nearest_unique(from: Point, pool: Seq<Point>, k: int)
    requires
        is_nearest(from, pool, k),
    ensures
        nearest(from, pool) == k,
{
    let n = nearest(from, pool);
    assert(is_nearest(from, pool, n));
    if n < k {
        assert(from.dist_sq(pool[k]) < from.dist_sq(pool[n]));
    } else if k < n {
        assert(from.dist_sq(pool[n]) < from.dist_sq(pool[k]));
    }
}

/// A pool that is not empty has a nearest point.
pub proof fn lemma_nearest_exists(from: Point, pool: Seq<Point>)
    requires
        pool.len() > 0,
    ensures
        is_nearest(from, pool, nearest(from, pool)),
    decreases pool.len(),
{
    if pool.len() == 1 {
        assert(is_nearest(from, pool, 0));
    } else {
        let front = pool.drop_last();
        lemma_nearest_exists(from, front);
        let k = nearest(from, front);
        assert forall|j: int| 0 <= j < front.len() implies front[j] == pool[j] by {}
        if from.dist_sq(pool.last()) < from.dist_sq(pool[k]) {
            assert(is_nearest(from, pool, pool.len() - 1)) by {
                assert forall|j: int| 0 <= j < pool.len() - 1 implies from.dist_sq(pool.last())
                    < from.dist_sq(#[trigger] pool[j]) by {
                    assert(from.dist_sq(front[k]) <= from.dist_sq(front[j]));
                }
            }
        } else {
            assert(is_nearest(from, pool, k)) by {
                assert forall|j: int| 0 <= j < pool.len() implies from.dist_sq(pool[k])
                    <= from.dist_sq(#[trigger] pool[j]) by {
                    if j < pool.len() - 1 {
                        assert(from.dist_sq(front[k]) <= from.dist_sq(front[j]));
                    }
                }
                assert forall|j: int| 0 <= j < k implies from.dist_sq(pool[k]) < from.dist_sq(
                    #[trigger] pool[j],
                ) by {
                    assert(from.dist_sq(front[k]) < from.dist_sq(front[j]));
                }
            }
        }
    }
}

/// The path that starts next to `from` and goes through all points of
/// `pool`, each time to the nearest point not yet visited, and to the first
/// of them in `pool` where several lie equally near.
pub open spec fn nn_chain(from: Point, pool: Seq<Point>) -> Seq<Point>
    decreases pool.len(),
{
    if pool.len() == 0 {
        Seq::empty()
    } else {
        proof {
            lemma_nearest_exists(from, pool);
        }
        let k = nearest(from, pool);
        seq![pool[k]] + nn_chain(pool[k], pool.remove(k))
    }
}

/// The nearest-neighbour tour through `points`: it starts at the first of
/// them.
pub open spec fn nn_tour(points: Seq<Point>) -> Seq<Point> {
    if points.len() == 0 {
        Seq::empty()
    } else {
        seq![points[0]] + nn_chain(points[0], points.remove(0))
    }
}

/// A chain visits each point of its pool once, and nothing else.
pub proof fn lemma_nn_chain_permutes(from: Point, pool: Seq<Point>)
    ensures
        nn_chain(from, pool).len() == pool.len(),
        nn_chain(from, pool).to_multiset() == pool.to_multiset(),
    decreases pool.len(),
{
    broadcast use group_to_multiset_ensures;

    if pool.len() > 0 {
        lemma_nearest_exists(from, pool);
        let k = nearest(from, pool);
        let rest = pool.remove(k);
        lemma_nn_chain_permutes(pool[k], rest);
        lemma_multiset_commutative(seq![pool[k]], nn_chain(pool[k], rest));
        assert(seq![pool[k]] =~= Seq::<Point>::empty().push(pool[k]));
        assert(pool.to_multiset() =~= rest.to_multiset().insert(pool[k]));
        assert(nn_chain(from, pool).to_multiset() =~= pool.to_multiset());
    } else {
        assert(nn_chain(from, pool) =~= pool);
    }
}

/// The point before place `t` of a chain that starts next to `from`.
pub open spec fn before(from: Point, chain: Seq<Point>, t: int) -> Point {
    if t == 0 {
        from
    } else {
        chain[t - 1]
    }
}

/// Each step of a chain leads to a point that is as near as any that the
/// chain visits later.
pub proof fn lemma_nn_chain_greedy(from: Point, pool: Seq<Point>, t: int, j: int)
    requires
        0 <= t <= j < pool.len(),
    ensures
        nn_chain(from, pool).len() == pool.len(),
        before(from, nn_chain(from, pool), t).dist_sq(nn_chain(from, pool)[t]) <= before(
            from,
            nn_chain(from, pool),
            t,
        ).dist_sq(nn_chain(from, pool)[j]),
    decreases pool.len(),
{
    broadcast use group_to_multiset_ensures;

    lemma_nn_chain_permutes(from, pool);
    lemma_nearest_exists(from, pool);
    let chain = nn_chain(from, pool);
    let k = nearest(from, pool);
    if t == 0 {
        assert(chain.contains(chain[j]));
        assert(pool.to_multiset().count(chain[j]) > 0);
        assert(pool.contains(chain[j]));
        let w = choose|w: int| 0 <= w < pool.len() && pool[w] == chain[j];
        assert(from.dist_sq(pool[k]) <= from.dist_sq(pool[w]));
    } else {
        let rest = pool.remove(k);
        lemma_nn_chain_permutes(pool[k], rest);
        lemma_nn_chain_greedy(pool[k], rest, t - 1, j - 1);
    }
}

/// Each step of the nearest-neighbour tour leads to a point that is as near
/// as any that the tour visits later.
pub proof fn lemma_nn_tour_greedy(points: Seq<Point>, t: int, j: int)
    requires
        1 <= t <= j < points.len(),
    ensures
        nn_tour(points).len() == points.len(),
        nn_tour(points)[0] == points[0],
        nn_tour(points)[t - 1].dist_sq(nn_tour(points)[t]) <= nn_tour(points)[t - 1].dist_sq(
            nn_tour(points)[j],
        ),
{
    lemma_nn_tour_permutes(points);
    lemma_nn_chain_greedy(points[0], points.remove(0), t - 1, j - 1);
}

/// The nearest-neighbour tour visits every point once and returns as many
/// points as it was given.
pub proof fn lemma_nn_tour_permutes(points: Seq<Point>)
    ensures
        nn_tour(points).len() == points.len(),
        nn_tour(points).to_multiset() == points.to_multiset(),
{
    broadcast use group_to_multiset_ensures;

    if points.len() > 0 {
        let rest = points.remove(0);
        lemma_nn_chain_permutes(points[0], rest);
        lemma_multiset_commutative(seq![points[0]], nn_chain(points[0], rest));
        assert(seq![points[0]] =~= Seq::<Point>::empty().push(points[0]));
        assert(points.to_multiset() =~= rest.to_multiset().insert(points[0]));
        assert(nn_tour(points).to_multiset() =~= points.to_multiset());
    } else {
        assert(nn_tour(points) =~= points);
    }
}

/// Finds the first of the points of `pool` that lie nearest to `from`.
pub fn nearest_index(from: &Point, pool: &Vec<Point>) -> (k: usize)
    requires
        pool.len() > 0,
    ensures
        k == nearest(*from, pool@),
        k < pool.len(),
{
    let mut k: usize = 0;
    let mut least: u128 = from.distance_squared(&pool[0]);
    let mut j: usize = 1;
    while j < pool.len()
        invariant
            1 <= j <= pool.len(),
            least == from.dist_sq(pool[k as int]),
            is_nearest(*from, pool@.take(j as int), k as int),
        decreases pool.len() - j,
    {
        let d: u128 = from.distance_squared(&pool[j]);
        if d < least {
            least = d;
            k = j;
        }
        assert(is_nearest(*from, pool@.take(j + 1), k as int));
        j += 1;
    }
    proof {
        assert(pool@.take(j as int) =~= pool@);
        lemma_nearest_unique(*from, pool@, k as int);
    }
    k
}

/// Orders the points into a tour: from the first point always on to the
/// nearest point not yet visited.
pub fn make_nn_tour(points: Vec<Point>) -> (tour: Vec<Point>)
    ensures
        tour@ == nn_tour(points@),
        tour.len() == points.len(),
        tour@.to_multiset() == points@.to_multiset(),
{
    let mut remaining = points;
    let mut tour: Vec<Point> = Vec::new();
    proof {
        lemma_nn_tour_permutes(points@);
    }
    if remaining.len() == 0 {
        assert(tour@ =~= nn_tour(points@));
        return tour;
    }
    let first = remaining.remove(0);
    tour.push(first);
    while remaining.len() > 0
        invariant
            tour.len() > 0,
            tour@ + nn_chain(tour@.last(), remaining@) == nn_tour(points@),
        decreases remaining.len(),
    {
        let ghost before = tour@;
        let ghost pool = remaining@;
        let current = tour[tour.len() - 1];
        let index = nearest_index(&current, &remaining);
        let next = remaining.remove(index);
        tour.push(next);
        assert(tour@ + nn_chain(next, remaining@) =~= before + nn_chain(current, pool));
    }
    assert(tour@ + nn_chain(tour@.last(), remaining@) =~= tour@);
    tour
}

/// The tour with the stretch from place `i` up to, not including, place `k`
/// turned round.
pub open spec fn reversed_span(tour: Seq<Point>, i: int, k: int) -> Seq<Point> {
    tour.subrange(0, i) + tour.subrange(i, k).reverse() + tour.subrange(k, tour.len() as int)
}

/// Whether the tour gets shorter when the edges that arrive at places `i`
/// and `k` are replaced by an edge between the points before them and an
/// edge between the points at them.
pub open spec fn shortens(tour: Seq<Point>, i: int, k: int) -> bool {
    tour[i - 1].dist(tour[k - 1]) + tour[i].dist(tour[k]) < tour[i - 1].dist(tour[i]) + tour[k
        - 1].dist(tour[k])
}

/// The tour after the pair of edges that arrive at `i` and `k` has been
/// looked at: with the stretch between them turned round if that shortens
/// it, and unchanged if not.
pub open spec fn two_opt_step(tour: Seq<Point>, i: int, k: int) -> Seq<Point> {
    if shortens(tour, i, k) {
        reversed_span(tour, i, k)
    } else {
        tour
    }
}

/// The tour of `n` points after the rest of a pass: the pairs of edges are
/// looked at in the order of `i`, and for one `i` in the order of `k`,
/// starting with the pair `i`, `k`, each on the tour as the pairs before it
/// have left it.
pub open spec fn two_opt_scan(tour: Seq<Point>, n: int, i: int, k: int) -> Seq<Point>
    decreases n - i, n - k,
{
    if i + 1 >= n || i < 1 || k <= i {
        tour
    } else if k >= n {
        two_opt_scan(tour, n, i + 1, i + 2)
    } else {
        two_opt_scan(two_opt_step(tour, i, k), n, i, k + 1)
    }
}

/// The tour after one pass over all pairs of its edges.
pub open spec fn two_opt_pass(tour: Seq<Point>) -> Seq<Point> {
    two_opt_scan(tour, tour.len() as int, 1, 2)
}

/// Whether a pass that saved `saved` of a length of `before` ends the
/// search: it does when the part saved is at most `criteria` millionths.
pub open spec fn settles(saved: int, before: int, criteria: u32) -> bool {
    saved * 1_000_000 <= criteria * before
}

/// The tour after as many passes as it takes for one of them to save no
/// more than `criteria` millionths of the length it started with.
pub open spec fn optimized(tour: Seq<Point>, criteria: u32) -> Seq<Point>
    decreases tour_length(tour),
{
    let next = two_opt_pass(tour);
    if settles(tour_length(tour) - tour_length(next), tour_length(tour) as int, criteria) {
        next
    } else {
        proof {
            assert(criteria * tour_length(tour) >= 0) by (nonlinear_arith);
        }
        optimized(next, criteria)
    }
}

/// What one pass has gained: `saved` of a length of `before`.
#[derive(Copy, Clone, Debug, PartialEq, Eq, Structural)]
pub struct Improvement {
    /// The length of the tour before the pass, less its length after it.
    pub saved: u128,
    /// The length of the tour before the pass.
    pub before: u128,
}

/// Turning a stretch round leaves the tour with the same points, the same
/// first and last point, and changes its length by the difference between
/// the two edges that it puts in and the two that it takes out.
pub proof fn lemma_reversed_span(tour: Seq<Point>, i: int, k: int)
    requires
        1 <= i < k < tour.len(),
    ensures
        reversed_span(tour, i, k).len() == tour.len(),
        reversed_span(tour, i, k).to_multiset() == tour.to_multiset(),
        reversed_span(tour, i, k)[0] == tour[0],
        reversed_span(tour, i, k).last() == tour.last(),
        tour_length(reversed_span(tour, i, k)) + tour[i - 1].dist(tour[i]) + tour[k - 1].dist(
            tour[k],
        ) == tour_length(tour) + tour[i - 1].dist(tour[k - 1]) + tour[i].dist(tour[k]),
{
    let a = tour.subrange(0, i);
    let b = tour.subrange(i, k);
    let c = tour.subrange(k, tour.len() as int);
    let r = b.reverse();
    assert(tour =~= a + b + c);
    // the same points
    lemma_multiset_commutative(a + b, c);
    lemma_multiset_commutative(a, b);
    lemma_multiset_commutative(a + r, c);
    lemma_multiset_commutative(a, r);
    b.lemma_reverse_to_multiset();
    // the length
    lemma_tour_length_joined(a, b);
    lemma_tour_length_joined(a + b, c);
    lemma_tour_length_joined(a, r);
    lemma_tour_length_joined(a + r, c);
    lemma_tour_length_reversed(b);
    lemma_dist_symmetric(tour[i], tour[k]);
    assert((a + b).last() == tour[k - 1]);
    assert((a + r).last() == tour[i]);
    assert(r.first() == tour[k - 1]);
}

/// A pass returns the points it was given, between the same first and last
/// point, on a path that is no longer.
pub proof fn lemma_two_opt_scan(tour: Seq<Point>, i: int, k: int)
    requires
        tour.len() > 0,
    ensures
        two_opt_scan(tour, tour.len() as int, i, k).len() == tour.len(),
        two_opt_scan(tour, tour.len() as int, i, k).to_multiset() == tour.to_multiset(),
        two_opt_scan(tour, tour.len() as int, i, k)[0] == tour[0],
        two_opt_scan(tour, tour.len() as int, i, k).last() == tour.last(),
        tour_length(two_opt_scan(tour, tour.len() as int, i, k)) <= tour_length(tour),
    decreases tour.len() - i, tour.len() - k,
{
    let n = tour.len() as int;
    if i + 1 >= n || i < 1 || k <= i {
    } else if k >= n {
        lemma_two_opt_scan(tour, i + 1, i + 2);
    } else {
        lemma_reversed_span(tour, i, k);
        lemma_two_opt_scan(two_opt_step(tour, i, k), i, k + 1);
    }
}

/// One pass returns the points it was given, between the same first and
/// last point, on a path that is no longer.
pub proof fn lemma_two_opt_pass(tour: Seq<Point>)
    ensures
        two_opt_pass(tour).len() == tour.len(),
        two_opt_pass(tour).to_multiset() == tour.to_multiset(),
        tour.len() > 0 ==> two_opt_pass(tour)[0] == tour[0] && two_opt_pass(tour).last()
            == tour.last(),
        tour_length(two_opt_pass(tour)) <= tour_length(tour),
{
    if tour.len() > 0 {
        lemma_two_opt_scan(tour, 1, 2);
    }
}

/// Optimizing returns the points it was given, between the same first and
/// last point, on a path that is no longer, and that a further pass would
/// shorten by no more than `criteria` millionths of what the last pass has
/// started with.
pub proof fn lemma_optimized(tour: Seq<Point>, criteria: u32)
    ensures
        optimized(tour, criteria).len() == tour.len(),
        optimized(tour, criteria).to_multiset() == tour.to_multiset(),
        tour.len() > 0 ==> optimized(tour, criteria)[0] == tour[0] && optimized(
            tour,
            criteria,
        ).last() == tour.last(),
        tour_length(optimized(tour, criteria)) <= tour_length(tour),
    decreases tour_length(tour),
{
    let next = two_opt_pass(tour);
    lemma_two_opt_pass(tour);
    if !settles(tour_length(tour) - tour_length(next), tour_length(tour) as int, criteria) {
        assert(criteria * tour_length(tour) >= 0) by (nonlinear_arith);
        lemma_optimized(next, criteria);
    }
}

/// Turns round the stretch of the tour from place `i` up to, not including,
/// place `k`.
fn reverse_span(tour: &mut Vec<Point>, i: usize, k: usize)
    requires
        i <= k <= old(tour).len(),
    ensures
        final(tour)@ == reversed_span(old(tour)@, i as int, k as int),
{
    let ghost start = tour@;
    let mut j: usize = 0;
    while k - j - (i + j) > 1
        invariant
            i <= k <= tour.len(),
            i + j <= k - j,
            tour.len() == start.len(),
            forall|p: int| 0 <= p < i || k <= p < tour.len() ==> tour[p] == start[p],
            forall|p: int| i + j <= p < k - j ==> tour[p] == start[p],
            forall|p: int| i <= p < i + j || k - j <= p < k ==> tour[p] == start[i + k - 1 - p],
        decreases k - j - (i + j),
    {
        let front = tour[i + j];
        let back = tour[k - j - 1];
        tour.set(i + j, back);
        tour.set(k - j - 1, front);
        j += 1;
    }
    assert(tour@ =~= reversed_span(start, i as int, k as int));
}

/// Tells whether a pass that saved `saved` of a length of `before` ends the
/// search.
fn is_settled(saved: u128, before: u128, criteria: u32) -> (b: bool)
    requires
        saved <= before <= 0x2_0000_0000 * 0xffff_ffff_ffff_ffff,
    ensures
        b == settles(saved as int, before as int, criteria),
{
    if criteria >= 1_000_000 {
        assert(saved * 1_000_000 <= criteria * before) by (nonlinear_arith)
            requires
                saved <= before,
                criteria >= 1_000_000,
        ;
        true
    } else {
        assert(criteria * before <= 1_000_000 * (0x2_0000_0000 * 0xffff_ffff_ffff_ffff))
            by (nonlinear_arith)
            requires
                criteria < 1_000_000,
                before <= 0x2_0000_0000 * 0xffff_ffff_ffff_ffff,
        ;
        saved * 1_000_000 <= criteria as u128 * before
    }
}

/// Makes one pass over all pairs of edges of the tour. Each pair is looked
/// at on the tour as the pairs before it have left it: where replacing the
/// two edges shortens the tour, the stretch between them is turned round at
/// once. Returns the tour and what the pass has gained.
pub fn optimize_two_opt_tour(tour: Vec<Point>) -> (r: (Vec<Point>, Improvement))
    ensures
        r.0@ == two_opt_pass(tour@),
        r.0.len() == tour.len(),
        r.0@.to_multiset() == tour@.to_multiset(),
        r.1.before == tour_length(tour@),
        r.1.saved == tour_length(tour@) - tour_length(r.0@),
        tour_length(r.0@) <= tour_length(tour@),
{
    let n = tour.len();
    let ghost start = tour@;
    let mut tour = tour;
    let before: u128 = total_distance(&tour);
    let mut length: u128 = before;
    proof {
        lemma_two_opt_pass(start);
    }
    if n < 3 {
        return (tour, Improvement { saved: 0, before });
    }
    let mut i: usize = 1;
    while i + 1 < n
        invariant
            1 <= i < n,
            n == start.len(),
            tour.len() == n,
            length == tour_length(tour@),
            two_opt_scan(tour@, n as int, i as int, i + 1) == two_opt_pass(start),
        decreases n - i,
    {
        let mut k: usize = i + 1;
        while k < n
            invariant
                1 <= i < k <= n,
                i + 1 < n,
                tour.len() == n,
                length == tour_length(tour@),
                two_opt_scan(tour@, n as int, i as int, k as int) == two_opt_pass(start),
            decreases n - k,
        {
            let out: u128 = tour[i - 1].distance(&tour[i]) as u128 + tour[k - 1].distance(
                &tour[k],
            ) as u128;
            let put: u128 = tour[i - 1].distance(&tour[k - 1]) as u128 + tour[i].distance(
                &tour[k],
            ) as u128;
            proof {
                lemma_reversed_span(tour@, i as int, k as int);
                lemma_tour_length_bounded(tour@);
                lemma_dist_bounded(tour[i - 1], tour[k - 1]);
                lemma_dist_bounded(tour[i as int], tour[k as int]);
                assert(MAX_DISTANCE * n <= 0x2_0000_0000 * 0xffff_ffff_ffff_ffff)
                    by (nonlinear_arith)
                    requires
                        n <= 0xffff_ffff_ffff_ffff,
                ;
            }
            if put < out {
                reverse_span(&mut tour, i, k);
                length = length + put - out;
            }
            k += 1;
        }
        i += 1;
    }
    (tour, Improvement { saved: before - length, before })
}

/// Makes pass after pass over the tour until one of them saves no more
/// than `criteria` millionths of the length that it started with. At least
/// one pass is made. With a `criteria` of nothing the passes go on until
/// one of them changes nothing.
pub fn optimize(tour: Vec<Point>, criteria: u32) -> (r: Vec<Point>)
    ensures
        r@ == optimized(tour@, criteria),
        r.len() == tour.len(),
        r@.to_multiset() == tour@.to_multiset(),
        tour_length(r@) <= tour_length(tour@),
{
    let mut current = tour;
    proof {
        lemma_optimized(tour@, criteria);
    }
    loop
        invariant
            optimized(current@, criteria) == optimized(tour@, criteria),
            optimized(tour@, criteria).len() == tour.len(),
            optimized(tour@, criteria).to_multiset() == tour@.to_multiset(),
            tour_length(optimized(tour@, criteria)) <= tour_length(tour@),
        decreases tour_length(current@),
    {
        let ghost last = current@;
        let (improved, improvement) = optimize_two_opt_tour(current);
        current = improved;
        proof {
            lemma_tour_length_bounded(last);
            assert(MAX_DISTANCE * last.len() <= 0x2_0000_0000 * 0xffff_ffff_ffff_ffff)
                by (nonlinear_arith)
                requires
                    last.len() <= 0xffff_ffff_ffff_ffff,
            ;
        }
        if is_settled(improvement.saved, improvement.before, criteria) {
            return current;
        }
        proof {
            assert(criteria * tour_length(last) >= 0) by (nonlinear_arith);
        }
    }
}

} // verus!
