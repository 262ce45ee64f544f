//! A job from picture to tours, step by step.
//!
//! A worker that serves a front end takes a request, and answers after every
//! step with the points as they then are: after scattering them, after each
//! round of moving them, after joining them into tours and after each pass
//! that shortens the tours. What the steps are and in what order they come
//! is decided here; the worker carries them out.

use vstd::prelude::*;
use crate::gcode::grid;
use crate::point::Point;
use crate::tsp::{make_nn_tour, nn_tour, optimize_two_opt_tour, tour_length, two_opt_pass};

verus! {

/// What a front end asks for.
#[derive(Clone, Debug)]
pub struct ComputeData {
    /// The picture, as the bytes of an image file.
    pub data: Vec<u8>,
    /// How many points to scatter.
    pub num_points: usize,
    /// How many times to move the points towards the dark.
    pub voronoi_iterations: usize,
    /// Whether to join the points into tours.
    pub compute_path: bool,
    /// How many passes to make over the tours to shorten them.
    pub tsp_iterations: usize,
}

/// A request to a worker.
#[derive(Clone, Debug)]
pub enum Request {
    Compute(ComputeData),
}

/// The points of all channels, one channel after the other, and the size
/// of the picture they lie on.
#[derive(Clone, Debug)]
pub struct UpdateData {
    pub width: u32,
    pub height: u32,
    pub points: Vec<Point>,
}

/// An answer of a worker.
#[derive(Clone, Debug)]
pub enum Response {
    /// The points, in no order.
    Points(UpdateData),
    /// The points, in the order of the tours.
    Path(UpdateData),
    /// The job is done.
    Done,
}

/// A step of a job.
#[derive(Copy, Clone, Debug, PartialEq, Eq, Structural)]
pub enum Task {
    /// Scatter the points.
    Sample,
    /// Move every point to the centre of gravity of its cell.
    Relax,
    /// Join the points of each channel into a tour.
    Tour,
    /// Make one pass over each tour to shorten it.
    Improve,
    /// Tell the front end that the job is done.
    Finish,
}

/// A step of a job and the number of the round it belongs to: rounds of
/// moving and passes of shortening are counted from one, the other steps
/// have the number nought.
#[derive(Copy, Clone, Debug, PartialEq, Eq, Structural)]
pub struct Step {
    pub task: Task,
    pub round: usize,
}

/// The channels joined into one sequence, one after the other.
pub open spec fn joined(chs: Seq<Seq<Point>>) -> Seq<Point>
    decreases chs.len(),
{
    if chs.len() == 0 {
        Seq::empty()
    } else {
        joined(chs.drop_last()) + chs.last()
    }
}

impl UpdateData {
    /// Puts the points of all channels into one answer.
    pub fn from(width: u32, height: u32, point_sets: &Vec<Vec<Point>>) -> (r: UpdateData)
        ensures
            r.width == width,
            r.height == height,
            r.points@ == joined(grid(point_sets)),
    {
        let ghost chs = grid(point_sets);
        let mut points: Vec<Point> = Vec::new();
        let mut c: usize = 0;
        while c < point_sets.len()
            invariant
                c <= point_sets.len(),
                chs == grid(point_sets),
                points@ == joined(chs.take(c as int)),
            decreases point_sets.len() - c,
        {
            let channel = &point_sets[c];
            let ghost before = points@;
            let mut i: usize = 0;
            while i < channel.len()
                invariant
                    i <= channel.len(),
                    points@ == before + channel@.take(i as int),
                decreases channel.len() - i,
            {
                points.push(channel[i]);
                assert(channel@.take(i + 1) =~= channel@.take(i as int).push(channel[i as int]));
                i += 1;
            }
            proof {
                assert(channel@.take(i as int) =~= channel@);
                assert(chs.take(c + 1).drop_last() =~= chs.take(c as int));
            }
            c += 1;
        }
        assert(chs.take(c as int) =~= chs);
        UpdateData { width, height, points }
    }
}

impl ComputeData {
    /// The step that follows the rounds of moving, `done` of which have
    /// been made.
    pub open spec fn after_relaxing(&self, done: usize) -> Step {
        if done < self.voronoi_iterations {
            Step { task: Task::Relax, round: (done + 1) as usize }
        } else if self.compute_path {
            Step { task: Task::Tour, round: 0 }
        } else {
            Step { task: Task::Finish, round: 0 }
        }
    }

    /// The step that follows the passes of shortening, `done` of which
    /// have been made.
    pub open spec fn after_improving(&self, done: usize) -> Step {
        if done < self.tsp_iterations {
            Step { task: Task::Improve, round: (done + 1) as usize }
        } else {
            Step { task: Task::Finish, round: 0 }
        }
    }

    /// The step that follows `step`: the points are scattered, then moved
    /// `voronoi_iterations` times; if tours are asked for, the points are
    /// joined into tours and `tsp_iterations` passes are made over them;
    /// then the job is finished, and stays so.
    pub open spec fn following(&self, step: Step) -> Step {
        match step.task {
            Task::Sample => self.after_relaxing(0),
            Task::Relax => self.after_relaxing(step.round),
            Task::Tour => self.after_improving(0),
            Task::Improve => self.after_improving(step.round),
            Task::Finish => step,
        }
    }

    /// Whether `step` is a step of this job.
    pub open spec fn has_step(&self, step: Step) -> bool {
        match step.task {
            Task::Sample => step.round == 0,
            Task::Relax => 1 <= step.round <= self.voronoi_iterations,
            Task::Tour => step.round == 0 && self.compute_path,
            Task::Improve => 1 <= step.round <= self.tsp_iterations && self.compute_path,
            Task::Finish => step.round == 0,
        }
    }

    /// The number of steps that are left to do when `step` is about to be
    /// done, `step` included and the last step, which finishes, left out.
    pub open spec fn steps_left(&self, step: Step) -> nat {
        match step.task {
            Task::Sample => (1 + self.voronoi_iterations + self.touring()) as nat,
            Task::Relax => (self.voronoi_iterations - step.round + 1 + self.touring()) as nat,
            Task::Tour => (1 + self.tsp_iterations) as nat,
            Task::Improve => (self.tsp_iterations - step.round + 1) as nat,
            Task::Finish => 0,
        }
    }

    /// The number of steps that make and shorten the tours.
    pub open spec fn touring(&self) -> nat {
        if self.compute_path {
            (1 + self.tsp_iterations) as nat
        } else {
            0
        }
    }

    /// The first step of a job.
    pub fn first_step(&self) -> (step: Step)
        ensures
            step == (Step { task: Task::Sample, round: 0 }),
            self.has_step(step),
    {
        Step { task: Task::Sample, round: 0 }
    }

    /// The step that follows `step`.
    pub fn next_step(&self, step: Step) -> (next: Step)
        requires
            self.has_step(step),
        ensures
            next == self.following(step),
            self.has_step(next),
            step.task != Task::Finish ==> self.steps_left(next) + 1 == self.steps_left(step),
    {
        match step.task {
            Task::Sample => self.relax_or_go_on(0),
            Task::Relax => self.relax_or_go_on(step.round),
            Task::Tour => self.improve_or_finish(0),
            Task::Improve => self.improve_or_finish(step.round),
            Task::Finish => step,
        }
    }

    fn relax_or_go_on(&self, done: usize) -> (next: Step)
        requires
            done <= self.voronoi_iterations,
        ensures
            next == self.after_relaxing(done),
    {
        if done < self.voronoi_iterations {
            Step { task: Task::Relax, round: done + 1 }
        } else if self.compute_path {
            Step { task: Task::Tour, round: 0 }
        } else {
            Step { task: Task::Finish, round: 0 }
        }
    }

    fn improve_or_finish(&self, done: usize) -> (next: Step)
        requires
            done <= self.tsp_iterations,
        ensures
            next == self.after_improving(done),
    {
        if done < self.tsp_iterations {
            Step { task: Task::Improve, round: done + 1 }
        } else {
            Step { task: Task::Finish, round: 0 }
        }
    }
}

/// Whether a step is answered with the points in the order of the tours.
pub fn answers_with_path(task: Task) -> (path: bool)
    ensures
        path == (task == Task::Tour || task == Task::Improve),
{
    match task {
        Task::Tour => true,
        Task::Improve => true,
        _ => false,
    }
}

/// Joins the points of each channel into a nearest-neighbour tour.
pub fn make_tours(point_sets: Vec<Vec<Point>>) -> (tours: Vec<Vec<Point>>)
    ensures
        grid(&tours) == Seq::new(point_sets.len() as nat, |c: int| nn_tour(point_sets[c]@)),
{
    let mut tours: Vec<Vec<Point>> = Vec::with_capacity(point_sets.len());
    let mut rest = point_sets;
    let ghost all = grid(&point_sets);
    while rest.len() > 0
        invariant
            tours.len() + rest.len() == all.len(),
            forall|c: int| 0 <= c < tours.len() ==> #[trigger] tours[c]@ == nn_tour(all[c]),
            forall|c: int| 0 <= c < rest.len() ==> #[trigger] rest[c]@ == all[tours.len() + c],
        decreases rest.len(),
    {
        let points = rest.remove(0);
        tours.push(make_nn_tour(points));
    }
    assert(grid(&tours) =~= Seq::new(point_sets.len() as nat, |c: int| nn_tour(point_sets[c]@)));
    tours
}

/// Makes one pass over the tour of each channel to shorten it.
pub fn improve_tours(tours: Vec<Vec<Point>>) -> (better: Vec<Vec<Point>>)
    ensures
        grid(&better) == Seq::new(tours.len() as nat, |c: int| two_opt_pass(tours[c]@)),
        forall|c: int|
            0 <= c < tours.len() ==> tour_length(#[trigger] better[c]@) <= tour_length(tours[c]@),
{
    let mut better: Vec<Vec<Point>> = Vec::with_capacity(tours.len());
    let mut rest = tours;
    let ghost all = grid(&tours);
    while rest.len() > 0
        invariant
            better.len() + rest.len() == all.len(),
            forall|c: int| 0 <= c < better.len() ==> #[trigger] better[c]@ == two_opt_pass(all[c]),
            forall|c: int|
                0 <= c < better.len() ==> tour_length(#[trigger] better[c]@) <= tour_length(all[c]),
            forall|c: int| 0 <= c < rest.len() ==> #[trigger] rest[c]@ == all[better.len() + c],
        decreases rest.len(),
    {
        let tour = rest.remove(0);
        let (shorter, _) = optimize_two_opt_tour(tour);
        better.push(shorter);
    }
    assert(grid(&better) =~= Seq::new(tours.len() as nat, |c: int| two_opt_pass(tours[c]@)));
    better
}

} // verus!
