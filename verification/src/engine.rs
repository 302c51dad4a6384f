//! The field engine: a rectangle of the plane, cut into vertical strips that
//! are swept independently and gathered into one frame.
use vstd::prelude::*;
use crate::complex::Complex;
use crate::frame::{frame, strip_fields};
use crate::strips::{Region, ceil_div, lemma_strip_width, strip, strip_edge, strip_width};
use crate::sweep::{Rated, field, sweep};

verus! {

/// Number of strips of an engine made by `JuliaSet::new`.
pub const DEFAULT_STRIPS: usize = 12;

/// One unit of dispatch: the corners of a rectangle and the constant.
pub type Task = (Complex, Complex, Complex);

/// The point lists that a sequence of messages carries.
pub open spec fn contents(messages: Seq<Vec<Rated>>) -> Seq<Seq<Rated>> {
    messages.map_values(|m: Vec<Rated>| m@)
}

/// The field engine. It holds the rectangle, the sampling step, the constant
/// of the recurrence and the number of strips that one evaluation is cut into.
pub struct JuliaSet {
    resolution: i64,
    min: Complex,
    max: Complex,
    constant: Complex,
    strips: usize,
}

impl View for JuliaSet {
    type V = Region;

    closed spec fn view(&self) -> Region {
        Region {
            resolution: self.resolution as int,
            min: self.min@,
            max: self.max@,
            constant: self.constant@,
            strips: self.strips as nat,
        }
    }
}

impl JuliaSet {
    #[verifier::type_invariant]
    spec fn positive_step(self) -> bool {
        self.resolution > 0
    }

    /// An engine that cuts each evaluation into `DEFAULT_STRIPS` strips.
    pub fn new(min: Complex, max: Complex, constant: Complex, resolution: i64) -> (engine: Self)
        requires
            resolution > 0,
        ensures
            engine@ == (Region {
                resolution: resolution as int,
                min: min@,
                max: max@,
                constant: constant@,
                strips: DEFAULT_STRIPS as nat,
            }),
    {
        JuliaSet { resolution, min, max, constant, strips: DEFAULT_STRIPS }
    }

    /// An engine that cuts each evaluation into `strips` strips, one for each
    /// worker of the pool that will run them.
    pub fn with_strips(
        min: Complex,
        max: Complex,
        constant: Complex,
        resolution: i64,
        strips: usize,
    ) -> (engine: Self)
        requires
            resolution > 0,
        ensures
            engine@ == (Region {
                resolution: resolution as int,
                min: min@,
                max: max@,
                constant: constant@,
                strips: strips as nat,
            }),
    {
        JuliaSet { resolution, min, max, constant, strips }
    }

    /// The sampling step; it is positive.
    pub fn resolution(&self) -> (resolution: i64)
        ensures
            resolution == self@.resolution,
            resolution > 0,
    {
        proof {
            use_type_invariant(self);
        }
        self.resolution
    }

    /// The lower corner of the rectangle.
    pub fn min(&self) -> (min: Complex)
        ensures
            min@ == self@.min,
    {
        self.min
    }

    /// The upper corner of the rectangle.
    pub fn max(&self) -> (max: Complex)
        ensures
            max@ == self@.max,
    {
        self.max
    }

    /// The constant of the recurrence.
    pub fn constant(&self) -> (constant: Complex)
        ensures
            constant@ == self@.constant,
    {
        self.constant
    }

    /// The number of strips of one evaluation.
    pub fn strips(&self) -> (strips: usize)
        ensures
            strips == self@.strips,
    {
        self.strips
    }

    /// Width of a full strip of a rectangle with positive extent.
    fn width(&self) -> (w: i128)
        requires
            self@.strips >= 1,
            self@.max.0 > self@.min.0,
        ensures
            w == strip_width(self@),
            0 < w < (self@.max.0 - self@.min.0) + self@.resolution,
    {
        proof {
            use_type_invariant(self);
            lemma_strip_width(self@);
        }
        let span: i128 = self.max.0 as i128 - self.min.0 as i128;
        let res: i128 = self.resolution as i128;
        assert(0 < self.strips * res < 0x8000_0000_0000_0000_0000_0000_0000_0000) by (nonlinear_arith)
            requires
                1 <= self.strips <= 0xffff_ffff_ffff_ffff,
                0 < res <= 0x7fff_ffff_ffff_ffff,
        ;
        let d: i128 = (self.strips as i128) * res;
        let q: i128 = span / d;
        let steps: i128 = if span % d == 0 {
            q
        } else {
            q + 1
        };
        assert(steps == ceil_div(span as int, d as int));
        res * steps
    }

    /// The `i`-th strip boundary along the real axis.
    fn edge(&self, i: usize) -> (e: i64)
        requires
            self@.strips >= 1,
            i <= self@.strips,
        ensures
            e == strip_edge(self@, i as int),
    {
        proof {
            use_type_invariant(self);
            lemma_strip_width(self@);
        }
        let ghost w0 = strip_width(self@);
        let ghost n = self@.strips as int;
        if self.max.0 <= self.min.0 {
            assert(i * w0 >= n * w0) by (nonlinear_arith)
                requires
                    0 <= i <= n,
                    w0 <= 0,
            ;
            return self.max.0;
        }
        let span: i128 = self.max.0 as i128 - self.min.0 as i128;
        let w: i128 = self.width();
        let q: i128 = span / w;
        assert(q * w <= span < (q + 1) * w) by (nonlinear_arith)
            requires
                w > 0,
                q == span / w,
        ;
        if i as i128 > q {
            assert(i * w >= (q + 1) * w) by (nonlinear_arith)
                requires
                    i >= q + 1,
                    w > 0,
            ;
            self.max.0
        } else {
            assert(0 <= i * w <= q * w) by (nonlinear_arith)
                requires
                    0 <= i <= q,
                    w > 0,
            ;
            (self.min.0 as i128 + (i as i128) * w) as i64
        }
    }

    /// The task of the `i`-th strip, as it is dispatched to a worker.
    pub fn partition(&self, i: usize) -> (task: Task)
        requires
            i < self@.strips,
        ensures
            (task.0@, task.1@) == strip(self@, i as int),
            task.2@ == self@.constant,
    {
        let lo: i64 = self.edge(i);
        let hi: i64 = self.edge(i + 1);
        (Complex(lo, self.min.1), Complex(hi, self.max.1), self.constant)
    }

    /// All tasks of one evaluation, in dispatch order.
    pub fn plan(&self) -> (tasks: Vec<Task>)
        ensures
            tasks@.len() == self@.strips,
            forall|i: int|
                0 <= i < tasks@.len() ==> (#[trigger] tasks@[i]).2@ == self@.constant && (
                    tasks@[i].0@,
                    tasks@[i].1@,
                ) == strip(self@, i),
    {
        let mut tasks: Vec<Task> = Vec::new();
        let mut i: usize = 0;
        while i < self.strips
            invariant
                i <= self@.strips,
                self.strips == self@.strips,
                tasks@.len() == i,
                forall|j: int|
                    0 <= j < i ==> (#[trigger] tasks@[j]).2@ == self@.constant && (
                        tasks@[j].0@,
                        tasks@[j].1@,
                    ) == strip(self@, j),
            decreases self.strips - i,
        {
            let task = self.partition(i);
            tasks.push(task);
            i = i + 1;
        }
        tasks
    }

    /// Evaluates the field of the whole rectangle, strip after strip, and
    /// returns the frame; `None` when no sample escaped.
    pub fn calculate(&self) -> (result: Option<Vec<Rated>>)
        ensures
            match result {
                Some(points) => points@ == frame(self@) && points@.len() > 0,
                None => frame(self@).len() == 0,
            },
    {
        let resolution: i64 = self.resolution();
        let ghost parts = strip_fields(self@);
        let mut points: Vec<Rated> = Vec::new();
        let mut i: usize = 0;
        assert(parts.take(0) =~= Seq::<Seq<Rated>>::empty());
        while i < self.strips
            invariant
                i <= self@.strips,
                self.strips == self@.strips,
                resolution == self@.resolution,
                resolution > 0,
                parts == strip_fields(self@),
                points@ == parts.take(i as int).flatten(),
            decreases self.strips - i,
        {
            let task = self.partition(i);
            let mut part = sweep(resolution, task.0, task.1, task.2);
            proof {
                assert(parts.take(i + 1) =~= parts.take(i as int).push(parts[i as int]));
                parts.take(i as int).lemma_flatten_push(parts[i as int]);
            }
            points.append(&mut part);
            i = i + 1;
        }
        assert(parts.take(i as int) =~= parts);
        finish(points)
    }

    /// Replaces the upper corner; the next evaluation uses it.
    pub fn set_max(&mut self, max: Complex)
        ensures
            final(self)@ == (Region { max: max@, ..old(self)@ }),
    {
        proof {
            use_type_invariant(&*self);
        }
        self.max = max;
    }

    /// Replaces the lower corner; the next evaluation uses it.
    pub fn set_min(&mut self, min: Complex)
        ensures
            final(self)@ == (Region { min: min@, ..old(self)@ }),
    {
        proof {
            use_type_invariant(&*self);
        }
        self.min = min;
    }

    /// Replaces the sampling step; the next evaluation uses it.
    pub fn set_resolution(&mut self, resolution: i64)
        requires
            resolution > 0,
        ensures
            final(self)@ == (Region { resolution: resolution as int, ..old(self)@ }),
    {
        self.resolution = resolution;
    }

    /// Replaces the constant of the recurrence; the next evaluation uses it.
    pub fn set_constant(&mut self, constant: Complex)
        ensures
            final(self)@ == (Region { constant: constant@, ..old(self)@ }),
    {
        proof {
            use_type_invariant(&*self);
        }
        self.constant = constant;
    }
}

/// Evaluates one task: the field of its rectangle.
pub fn run(resolution: i64, task: Task) -> (part: Vec<Rated>)
    requires
        resolution > 0,
    ensures
        part@ == field(resolution as int, task.0@, task.1@, task.2@),
{
    sweep(resolution, task.0, task.1, task.2)
}

/// The outcome of an evaluation: the frame if it has a point, else `None`.
pub fn finish(points: Vec<Rated>) -> (result: Option<Vec<Rated>>)
    ensures
        match result {
            Some(kept) => kept@ == points@ && points@.len() > 0,
            None => points@.len() == 0,
        },
{
    if points.len() == 0 {
        None
    } else {
        Some(points)
    }
}

/// Joins the point lists of the received messages, in the order in which
/// they arrived, into the outcome of the evaluation.
pub fn gather(messages: Vec<Vec<Rated>>) -> (result: Option<Vec<Rated>>)
    ensures
        match result {
            Some(points) => points@ == contents(messages@).flatten() && points@.len() > 0,
            None => contents(messages@).flatten().len() == 0,
        },
{
    let ghost parts = contents(messages@);
    let mut points: Vec<Rated> = Vec::new();
    let mut i: usize = 0;
    assert(parts.take(0) =~= Seq::<Seq<Rated>>::empty());
    while i < messages.len()
        invariant
            i <= messages@.len(),
            parts == contents(messages@),
            points@ == parts.take(i as int).flatten(),
        decreases messages.len() - i,
    {
        let message = &messages[i];
        let ghost before = points@;
        let mut j: usize = 0;
        while j < message.len()
            invariant
                j <= message@.len(),
                points@ == before + message@.take(j as int),
            decreases message.len() - j,
        {
            points.push(message[j]);
            assert(message@.take(j + 1) =~= message@.take(j as int).push(message@[j as int]));
            j = j + 1;
        }
        proof {
            assert(message@.take(j as int) =~= message@);
            assert(parts[i as int] == message@);
            assert(parts.take(i + 1) =~= parts.take(i as int).push(parts[i as int]));
            parts.take(i as int).lemma_flatten_push(parts[i as int]);
        }
        i = i + 1;
    }
    assert(parts.take(i as int) =~= parts);
    finish(points)
}

} // verus!
