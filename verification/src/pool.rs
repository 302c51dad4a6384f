//! The bookkeeping of a fixed-size worker pool: which jobs wait, which worker
//! does what, and what each worker has to do next. The threads themselves
//! live with the caller; every decision they act on is taken here.
use vstd::prelude::*;
use std::collections::VecDeque;

verus! {

/// Where a worker stands in its life.
#[derive(Clone, Copy, PartialEq, Eq, Debug, Structural)]
pub enum WorkerState {
    /// Between jobs: it asks for the next one.
    Idle,
    /// Running a job.
    Busy,
    /// Its loop has ended; it has not been joined yet.
    Done,
    /// Joined.
    Joined,
}

/// One worker of the pool: its index and its state.
#[derive(Clone, Copy, Debug)]
pub struct Worker {
    pub id: usize,
    pub state: WorkerState,
}

/// What a worker does next.
pub enum Step<J> {
    /// Run this job, then report it done.
    Run(J),
    /// No job waits: sleep until the pool changes.
    Wait,
    /// The pool is shut down: leave the loop.
    Exit,
}

/// The pool as a mathematical value.
pub struct PoolView<J> {
    /// The state of each worker, by index.
    pub workers: Seq<WorkerState>,
    /// The jobs that wait, oldest first.
    pub pending: Seq<J>,
    /// Whether the pool still accepts jobs.
    pub open: bool,
    /// The jobs handed to workers so far, in the order in which they left.
    pub handed: Seq<J>,
    /// The number of jobs reported done.
    pub completed: nat,
}

/// Number of workers that are running a job.
pub open spec fn busy_count(workers: Seq<WorkerState>) -> nat
    decreases workers.len(),
{
    if workers.len() == 0 {
        0
    } else {
        busy_count(workers.drop_last()) + if workers.last() is Busy {
            1nat
        } else {
            0nat
        }
    }
}

impl<J> PoolView<J> {
    /// A new pool of `size` idle workers with nothing to do.
    pub open spec fn fresh(size: nat) -> Self {
        PoolView {
            workers: Seq::new(size, |i: int| WorkerState::Idle),
            pending: Seq::empty(),
            open: true,
            handed: Seq::empty(),
            completed: 0,
        }
    }

    /// Every job accepted so far, in the order of acceptance.
    pub open spec fn accepted(self) -> Seq<J> {
        self.handed + self.pending
    }

    /// Every job that left the queue is either done or running on exactly
    /// one worker.
    pub open spec fn balanced(self) -> bool {
        self.handed.len() == self.completed + busy_count(self.workers)
    }

    /// Nothing waits and nothing runs.
    pub open spec fn quiet(self) -> bool {
        self.pending.len() == 0 && busy_count(self.workers) == 0
    }

    /// The pool after it accepted `job`.
    pub open spec fn after_execute(self, job: J) -> Self {
        PoolView { pending: self.pending.push(job), ..self }
    }

    /// What worker `id` is told when it asks for work.
    pub open spec fn decision(self) -> Step<J> {
        if !self.open {
            Step::Exit
        } else if self.pending.len() > 0 {
            Step::Run(self.pending.first())
        } else {
            Step::Wait
        }
    }

    /// The pool after idle worker `id` asked for work.
    pub open spec fn after_next_job(self, id: int) -> Self {
        match self.decision() {
            Step::Run(job) => PoolView {
                workers: self.workers.update(id, WorkerState::Busy),
                pending: self.pending.drop_first(),
                handed: self.handed.push(job),
                ..self
            },
            Step::Wait => self,
            Step::Exit => PoolView { workers: self.workers.update(id, WorkerState::Done), ..self },
        }
    }

    /// The pool after busy worker `id` reported its job done.
    pub open spec fn after_job_done(self, id: int) -> Self {
        PoolView {
            workers: self.workers.update(id, WorkerState::Idle),
            completed: self.completed + 1,
            ..self
        }
    }

    /// The pool after shutdown was requested.
    pub open spec fn after_shutdown(self) -> Self {
        PoolView { open: false, ..self }
    }

    /// The pool after worker `id`, whose loop has ended, was joined.
    pub open spec fn after_join(self, id: int) -> Self {
        PoolView { workers: self.workers.update(id, WorkerState::Joined), ..self }
    }
}

/// Changing one worker's state changes the number of busy workers by what
/// that worker adds to it.
pub proof fn lemma_busy_count_update(workers: Seq<WorkerState>, id: int, state: WorkerState)
    requires
        0 <= id < workers.len(),
    ensures
        busy_count(workers.update(id, state)) + (if workers[id] is Busy {
            1nat
        } else {
            0nat
        }) == busy_count(workers) + (if state is Busy {
            1nat
        } else {
            0nat
        }),
    decreases workers.len(),
{
    let changed = workers.update(id, state);
    if id == workers.len() - 1 {
        assert(changed.drop_last() =~= workers.drop_last());
    } else {
        lemma_busy_count_update(workers.drop_last(), id, state);
        assert(changed.drop_last() =~= workers.drop_last().update(id, state));
    }
}

/// A pool of idle workers has no busy worker.
pub proof fn lemma_busy_count_idle(size: nat)
    ensures
        busy_count(Seq::new(size, |i: int| WorkerState::Idle)) == 0,
    decreases size,
{
    if size > 0 {
        lemma_busy_count_idle((size - 1) as nat);
        assert(Seq::new(size, |i: int| WorkerState::Idle).drop_last() =~= Seq::new(
            (size - 1) as nat,
            |i: int| WorkerState::Idle,
        ));
    }
}

/// With no busy worker, no worker is busy.
pub proof fn lemma_busy_count_zero(workers: Seq<WorkerState>, id: int)
    requires
        busy_count(workers) == 0,
        0 <= id < workers.len(),
    ensures
        !(workers[id] is Busy),
    decreases workers.len(),
{
    if id < workers.len() - 1 {
        lemma_busy_count_zero(workers.drop_last(), id);
    }
}

/// Accepting a job adds it, and nothing else, to the accepted jobs, and
/// keeps the books balanced.
pub proof fn lemma_execute_step<J>(v: PoolView<J>, job: J)
    requires
        v.balanced(),
    ensures
        v.after_execute(job).balanced(),
        v.after_execute(job).accepted() == v.accepted().push(job),
        v.after_execute(job).handed == v.handed,
{
    assert(v.after_execute(job).accepted() =~= v.accepted().push(job));
}

/// Asking for work never changes which jobs were accepted: a job that is
/// handed out leaves the queue for exactly one worker, which becomes busy.
pub proof fn lemma_next_job_step<J>(v: PoolView<J>, id: int)
    requires
        v.balanced(),
        0 <= id < v.workers.len(),
        v.workers[id] is Idle,
    ensures
        v.after_next_job(id).balanced(),
        v.after_next_job(id).accepted() == v.accepted(),
        v.after_next_job(id).completed == v.completed,
        v.decision() is Run ==> v.after_next_job(id).handed == v.handed.push(v.pending.first()),
        !(v.decision() is Run) ==> v.after_next_job(id).handed == v.handed,
        !v.open ==> v.after_next_job(id).handed == v.handed,
{
    match v.decision() {
        Step::Run(job) => {
            lemma_busy_count_update(v.workers, id, WorkerState::Busy);
            assert(v.after_next_job(id).accepted() =~= v.accepted());
        },
        Step::Wait => {},
        Step::Exit => {
            lemma_busy_count_update(v.workers, id, WorkerState::Done);
        },
    }
}

/// Reporting a job done counts it once and frees its worker.
pub proof fn lemma_job_done_step<J>(v: PoolView<J>, id: int)
    requires
        v.balanced(),
        0 <= id < v.workers.len(),
        v.workers[id] is Busy,
    ensures
        v.after_job_done(id).balanced(),
        v.after_job_done(id).accepted() == v.accepted(),
        v.after_job_done(id).completed == v.completed + 1,
{
    lemma_busy_count_update(v.workers, id, WorkerState::Idle);
}

/// Joining a worker whose loop has ended changes no count.
pub proof fn lemma_join_step<J>(v: PoolView<J>, id: int)
    requires
        v.balanced(),
        0 <= id < v.workers.len(),
        v.workers[id] is Done,
    ensures
        v.after_join(id).balanced(),
        v.after_join(id).accepted() == v.accepted(),
        v.after_join(id).completed == v.completed,
{
    lemma_busy_count_update(v.workers, id, WorkerState::Joined);
}

/// Once nothing waits and nothing runs, every accepted job has been handed
/// out and reported done exactly once: the count of completed jobs equals
/// the count of accepted jobs, whatever the number of workers.
pub proof fn lemma_quiet_all_done<J>(v: PoolView<J>)
    requires
        v.balanced(),
        v.quiet(),
    ensures
        v.completed == v.accepted().len(),
        v.handed == v.accepted(),
{
    assert(v.handed + v.pending =~= v.handed);
}

/// Something that happens to a pool.
pub enum Event<J> {
    /// A job is submitted.
    Execute(J),
    /// The worker with this index asks for work.
    NextJob(int),
    /// The worker with this index reports its job done.
    JobDone(int),
    /// Shutdown is requested.
    Shutdown,
    /// The worker with this index is joined.
    Join(int),
}

impl<J> PoolView<J> {
    /// Whether the event may happen in this state.
    pub open spec fn allows(self, event: Event<J>) -> bool {
        match event {
            Event::Execute(_) => self.open,
            Event::NextJob(id) => 0 <= id < self.workers.len() && self.workers[id] is Idle,
            Event::JobDone(id) => 0 <= id < self.workers.len() && self.workers[id] is Busy,
            Event::Shutdown => true,
            Event::Join(id) => 0 <= id < self.workers.len() && self.workers[id] is Done,
        }
    }

    /// The state after the event.
    pub open spec fn after(self, event: Event<J>) -> Self {
        match event {
            Event::Execute(job) => self.after_execute(job),
            Event::NextJob(id) => self.after_next_job(id),
            Event::JobDone(id) => self.after_job_done(id),
            Event::Shutdown => self.after_shutdown(),
            Event::Join(id) => self.after_join(id),
        }
    }

    /// The state after a sequence of events.
    pub open spec fn after_all(self, events: Seq<Event<J>>) -> Self
        decreases events.len(),
    {
        if events.len() == 0 {
            self
        } else {
            self.after_all(events.drop_last()).after(events.last())
        }
    }

    /// Whether each event of the sequence may happen in the state it meets.
    pub open spec fn allows_all(self, events: Seq<Event<J>>) -> bool
        decreases events.len(),
    {
        events.len() == 0 || (self.allows_all(events.drop_last()) && self.after_all(
            events.drop_last(),
        ).allows(events.last()))
    }
}

/// The jobs that a sequence of events submits, in order.
pub open spec fn submitted<J>(events: Seq<Event<J>>) -> Seq<J>
    decreases events.len(),
{
    if events.len() == 0 {
        Seq::empty()
    } else {
        match events.last() {
            Event::Execute(job) => submitted(events.drop_last()).push(job),
            _ => submitted(events.drop_last()),
        }
    }
}

/// Whatever happens to a new pool of whatever size, its books stay balanced
/// and the jobs it accepted are the jobs that were submitted. So once every
/// submitted job has finished, with nothing waiting and nothing running, the
/// count of completed jobs is the count of submitted jobs: each ran once.
pub proof fn lemma_history<J>(size: nat, events: Seq<Event<J>>)
    requires
        PoolView::<J>::fresh(size).allows_all(events),
    ensures
        ({
            let v = PoolView::<J>::fresh(size).after_all(events);
            &&& v.workers.len() == size
            &&& v.balanced()
            &&& v.accepted() == submitted(events)
            &&& v.quiet() ==> v.completed == submitted(events).len() && v.handed == submitted(
                events,
            )
        }),
    decreases events.len(),
{
    let start = PoolView::<J>::fresh(size);
    if events.len() == 0 {
        lemma_busy_count_idle(size);
        assert(start.accepted() =~= Seq::<J>::empty());
    } else {
        lemma_history(size, events.drop_last());
        let v = start.after_all(events.drop_last());
        match events.last() {
            Event::Execute(job) => {
                lemma_execute_step(v, job);
            },
            Event::NextJob(id) => {
                lemma_next_job_step(v, id);
            },
            Event::JobDone(id) => {
                lemma_job_done_step(v, id);
            },
            Event::Shutdown => {},
            Event::Join(id) => {
                lemma_join_step(v, id);
            },
        }
    }
    let end = start.after_all(events);
    if end.quiet() {
        lemma_quiet_all_done(end);
    }
}

/// Once shutdown was requested, no job is handed out any more.
pub proof fn lemma_closed_hands_out_nothing<J>(v: PoolView<J>, event: Event<J>)
    requires
        !v.open,
        v.allows(event),
    ensures
        !v.after(event).open,
        v.after(event).handed == v.handed,
        v.after(event).pending == v.pending,
{
}

/// The bookkeeping of a pool of workers that share one queue of jobs.
pub struct ThreadPool<J> {
    workers: Vec<Worker>,
    queue: VecDeque<J>,
    open: bool,
    handed: Ghost<Seq<J>>,
    completed: Ghost<nat>,
}

impl<J> View for ThreadPool<J> {
    type V = PoolView<J>;

    closed spec fn view(&self) -> PoolView<J> {
        PoolView {
            workers: self.workers@.map_values(|w: Worker| w.state),
            pending: self.queue@,
            open: self.open,
            handed: self.handed@,
            completed: self.completed@,
        }
    }
}

impl Worker {
    /// A worker that waits for its first job.
    pub fn new(id: usize) -> (worker: Worker)
        ensures
            worker.id == id,
            worker.state is Idle,
    {
        Worker { id, state: WorkerState::Idle }
    }
}

impl<J> ThreadPool<J> {
    /// The workers are numbered by their index, and the books are balanced.
    pub closed spec fn wf(&self) -> bool {
        &&& forall|i: int| 0 <= i < self.workers@.len() ==> (#[trigger] self.workers@[i]).id == i
        &&& self@.balanced()
    }

    /// A pool of `size` idle workers that accepts jobs.
    pub fn new(size: usize) -> (pool: Self)
        ensures
            pool.wf(),
            pool@ == PoolView::<J>::fresh(size as nat),
    {
        let mut workers: Vec<Worker> = Vec::with_capacity(size);
        let mut i: usize = 0;
        while i < size
            invariant
                i <= size,
                workers@.len() == i,
                forall|k: int|
                    0 <= k < i ==> (#[trigger] workers@[k]).id == k && workers@[k].state is Idle,
            decreases size - i,
        {
            workers.push(Worker::new(i));
            i = i + 1;
        }
        let pool = ThreadPool {
            workers,
            queue: VecDeque::new(),
            open: true,
            handed: Ghost(Seq::empty()),
            completed: Ghost(0),
        };
        proof {
            assert(pool@.workers =~= Seq::new(size as nat, |i: int| WorkerState::Idle));
            lemma_busy_count_idle(size as nat);
        }
        pool
    }

    /// Number of workers.
    pub fn size(&self) -> (size: usize)
        ensures
            size == self@.workers.len(),
    {
        self.workers.len()
    }

    /// Whether the pool still accepts jobs.
    pub fn is_open(&self) -> (open: bool)
        ensures
            open == self@.open,
    {
        self.open
    }

    /// Number of jobs that wait.
    pub fn pending(&self) -> (pending: usize)
        ensures
            pending == self@.pending.len(),
    {
        self.queue.len()
    }

    /// The state of worker `id`.
    pub fn state_of(&self, id: usize) -> (state: WorkerState)
        requires
            id < self@.workers.len(),
        ensures
            state == self@.workers[id as int],
    {
        self.workers[id].state
    }

    /// Accepts a job: it waits behind the jobs accepted before it.
    pub fn execute(&mut self, job: J)
        requires
            old(self).wf(),
            old(self)@.open,
        ensures
            final(self).wf(),
            final(self)@ == old(self)@.after_execute(job),
    {
        self.queue.push_back(job);
    }

    /// Tells idle worker `id` what to do next: to run the oldest waiting
    /// job, to wait while the open pool has none, or to leave its loop once
    /// shutdown was requested.
    pub fn next_job(&mut self, id: usize) -> (step: Step<J>)
        requires
            old(self).wf(),
            id < old(self)@.workers.len(),
            old(self)@.workers[id as int] is Idle,
        ensures
            final(self).wf(),
            step == old(self)@.decision(),
            final(self)@ == old(self)@.after_next_job(id as int),
    {
        proof {
            lemma_next_job_step(self@, id as int);
        }
        if !self.open {
            self.workers.set(id, Worker { id, state: WorkerState::Done });
            assert(self@.workers =~= old(self)@.workers.update(id as int, WorkerState::Done));
            Step::Exit
        } else if self.queue.len() > 0 {
            let job = self.queue.pop_front().unwrap();
            self.workers.set(id, Worker { id, state: WorkerState::Busy });
            proof {
                self.handed@ = self.handed@.push(job);
            }
            assert(self@.workers =~= old(self)@.workers.update(id as int, WorkerState::Busy));
            assert(self@.pending =~= old(self)@.pending.drop_first());
            Step::Run(job)
        } else {
            Step::Wait
        }
    }

    /// Records that busy worker `id` finished its job.
    pub fn job_done(&mut self, id: usize)
        requires
            old(self).wf(),
            id < old(self)@.workers.len(),
            old(self)@.workers[id as int] is Busy,
        ensures
            final(self).wf(),
            final(self)@ == old(self)@.after_job_done(id as int),
    {
        proof {
            lemma_job_done_step(self@, id as int);
            self.completed@ = self.completed@ + 1;
        }
        self.workers.set(id, Worker { id, state: WorkerState::Idle });
        assert(self@.workers =~= old(self)@.workers.update(id as int, WorkerState::Idle));
    }

    /// Requests shutdown: no job is accepted or handed out any more.
    pub fn shutdown(&mut self)
        requires
            old(self).wf(),
        ensures
            final(self).wf(),
            final(self)@ == old(self)@.after_shutdown(),
    {
        self.open = false;
    }

    /// Records that worker `id`, whose loop has ended, was joined.
    pub fn join(&mut self, id: usize)
        requires
            old(self).wf(),
            id < old(self)@.workers.len(),
            old(self)@.workers[id as int] is Done,
        ensures
            final(self).wf(),
            final(self)@ == old(self)@.after_join(id as int),
    {
        proof {
            lemma_join_step(self@, id as int);
        }
        self.workers.set(id, Worker { id, state: WorkerState::Joined });
        assert(self@.workers =~= old(self)@.workers.update(id as int, WorkerState::Joined));
    }
}

} // verus!
