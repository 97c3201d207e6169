//! The worker pool's bookkeeping: how many workers a host may run, and the
//! queue through which jobs and terminate signals reach them.
//!
//! The pool here holds no thread. Whoever runs the threads keeps one pool
//! behind a lock, lets every worker take its next message from it, and
//! reports back what became of each job.

use crate::config::logical_cores;
use crate::errors::MyErrors;
use crate::text::{decimal, decimal_digits};
use std::collections::VecDeque;
use vstd::prelude::*;
use vstd::string::StringExecFns;

verus! {

/// What a worker is sent.
pub enum Message<J> {
    /// A job to run.
    NewJob(J),
    /// The signal to leave the loop.
    Terminate,
}

/// What a worker is doing.
#[derive(Clone, Copy, Debug, PartialEq, Eq, Structural)]
pub enum WorkerState {
    /// It waits for its next message.
    Idle,
    /// It runs a job.
    Busy,
    /// It has taken a terminate signal and left its loop.
    Stopped,
    /// Its job panicked; the worker is gone and is not replaced.
    Lost,
}

/// One worker of the pool.
#[derive(Clone, Copy, Debug)]
pub struct Worker {
    /// The worker's place in the pool.
    pub id: usize,
    /// What the worker is doing.
    pub state: WorkerState,
}

impl Worker {
    /// A worker that waits for its first message.
    pub fn new(id: usize) -> (r: Worker)
        ensures
            r.id == id,
            r.state == WorkerState::Idle,
    {
        Worker { id, state: WorkerState::Idle }
    }
}

/// The most workers that a host with that many logical cores runs: half of
/// the cores.
pub open spec fn limit_of(cores: usize) -> usize {
    cores / 2
}

/// How many workers the pool gets: the requested number, where it is within
/// the limit; without a request, the limit, and at least one; none where
/// the request is above the limit.
pub open spec fn capacity_spec(threads: Option<usize>, cores: usize) -> Option<usize> {
    match threads {
        Some(n) => if n > limit_of(cores) {
            None
        } else {
            Some(n)
        },
        None => if limit_of(cores) >= 1 {
            Some(limit_of(cores))
        } else {
            Some(1usize)
        },
    }
}

/// The text of the error for a request above the limit.
pub open spec fn limit_message(limit: usize) -> Seq<char> {
    "The `threads` size must be lower than "@ + decimal_digits(limit as nat)
}

/// How many workers the pool gets on a host with the given number of
/// logical cores. A request above half of the cores is an error.
pub fn capacity(threads: Option<usize>, cores: usize) -> (r: Result<usize, MyErrors>)
    ensures
        match r {
            Ok(n) => capacity_spec(threads, cores) == Some(n),
            Err(e) => capacity_spec(threads, cores) is None && e is InvalidConfig && e.text()
                == limit_message(limit_of(cores)),
        },
{
    let limit = cores / 2;
    match threads {
        Some(n) => {
            if n > limit {
                let mut text = "The `threads` size must be lower than ".to_owned();
                text.append(decimal(limit).as_str());
                Err(MyErrors::InvalidConfig(text))
            } else {
                Ok(n)
            }
        },
        None => {
            if limit >= 1 {
                Ok(limit)
            } else {
                Ok(1)
            }
        },
    }
}

/// How many of the workers are in the given state.
pub open spec fn count_of(states: Seq<WorkerState>, s: WorkerState) -> nat
    decreases states.len(),
{
    if states.len() == 0 {
        0
    } else {
        count_of(states.drop_last(), s) + if states.last() == s {
            1nat
        } else {
            0nat
        }
    }
}

/// A change of one worker's state moves one from the count of the old state
/// to the count of the new one.
pub proof fn lemma_count_update(states: Seq<WorkerState>, i: int, to: WorkerState, s: WorkerState)
    requires
        0 <= i < states.len(),
    ensures
        count_of(states.update(i, to), s) + (if states[i] == s {
            1nat
        } else {
            0nat
        }) == count_of(states, s) + (if to == s {
            1nat
        } else {
            0nat
        }),
    decreases states.len(),
{
    let now = states.update(i, to);
    if i == states.len() - 1 {
        assert(now.drop_last() == states.drop_last());
    } else {
        assert(now.drop_last() == states.drop_last().update(i, to));
        lemma_count_update(states.drop_last(), i, to, s);
    }
}

/// No more workers are in a state than there are workers; none is in it
/// exactly if the count is zero, and all are exactly if the count is the
/// number of workers.
pub proof fn lemma_count_bounds(states: Seq<WorkerState>, s: WorkerState)
    ensures
        count_of(states, s) <= states.len(),
        count_of(states, s) == 0 <==> forall|i: int| 0 <= i < states.len() ==> states[i] != s,
        count_of(states, s) == states.len() <==> forall|i: int|
            0 <= i < states.len() ==> states[i] == s,
    decreases states.len(),
{
    if states.len() > 0 {
        let before = states.drop_last();
        lemma_count_bounds(before, s);
        assert forall|i: int| 0 <= i < before.len() implies before[i] == states[i] by {}
        if count_of(states, s) == 0 {
            assert forall|i: int| 0 <= i < states.len() implies states[i] != s by {
                if i < before.len() {
                    assert(before[i] == states[i]);
                }
            }
        }
        if count_of(states, s) == states.len() {
            assert forall|i: int| 0 <= i < states.len() implies states[i] == s by {
                if i < before.len() {
                    assert(before[i] == states[i]);
                }
            }
        }
        if forall|i: int| 0 <= i < states.len() ==> states[i] != s {
            assert forall|i: int| 0 <= i < before.len() implies before[i] != s by {
                assert(before[i] == states[i]);
            }
        }
        if forall|i: int| 0 <= i < states.len() ==> states[i] == s {
            assert forall|i: int| 0 <= i < before.len() implies before[i] == s by {
                assert(before[i] == states[i]);
            }
        }
    }
}

/// The state of a pool as a whole.
#[derive(Clone, Copy, Debug, PartialEq, Eq, Structural)]
pub enum Phase {
    /// Jobs are taken and handed to idle workers.
    Running,
    /// No more jobs are taken; the workers finish what is queued and stop.
    Draining,
    /// Every worker has stopped or is lost.
    Terminated,
}

/// A pool of workers with its queue of messages.
pub struct ThreadPool<J> {
    workers: Vec<Worker>,
    queue: VecDeque<Message<J>>,
    signals: usize,
    draining: bool,
    submitted: u64,
    completed: u64,
    failed: u64,
}

impl<J> ThreadPool<J> {
    /// What each worker is doing.
    pub closed spec fn states(&self) -> Seq<WorkerState> {
        Seq::new(self.workers@.len(), |i: int| self.workers@[i].state)
    }

    /// The messages that wait, the next one first.
    pub closed spec fn messages(&self) -> Seq<Message<J>> {
        self.queue@
    }

    /// Whether the pool has been told to shut down.
    pub closed spec fn draining(&self) -> bool {
        self.draining
    }

    /// How many jobs the pool has taken.
    pub closed spec fn submitted_count(&self) -> nat {
        self.submitted as nat
    }

    /// How many jobs have run to their end.
    pub closed spec fn completed_count(&self) -> nat {
        self.completed as nat
    }

    /// How many jobs have panicked.
    pub closed spec fn failed_count(&self) -> nat {
        self.failed as nat
    }

    /// How many terminate signals wait at the end of the queue.
    pub closed spec fn signal_count(&self) -> nat {
        self.signals as nat
    }

    /// How many jobs wait in the queue.
    pub open spec fn queued_count(&self) -> int {
        self.messages().len() - self.signal_count()
    }

    /// Every worker has stopped or is lost, after a shutdown.
    pub open spec fn terminated(&self) -> bool {
        &&& self.draining()
        &&& forall|i: int|
            0 <= i < self.states().len() ==> self.states()[i] == WorkerState::Stopped
                || self.states()[i] == WorkerState::Lost
    }

    /// What holds of every pool. The queue holds the jobs in the order in
    /// which they came, and behind them the terminate signals. Each
    /// submitted job is queued, running, completed or failed. Each worker
    /// that has stopped has taken one signal, and none could before the
    /// last job had left the queue.
    pub closed spec fn wf(&self) -> bool {
        &&& self.workers@.len() >= 1
        &&& forall|i: int| 0 <= i < self.workers@.len() ==> (#[trigger] self.workers@[i]).id == i
        &&& self.signals <= self.queue@.len()
        &&& forall|i: int|
            0 <= i < self.queue@.len() ==> ((#[trigger] self.queue@[i]) is Terminate <==> i
                >= self.queue@.len() - self.signals)
        &&& !self.draining ==> self.signals == 0 && count_of(self.states(), WorkerState::Stopped)
            == 0
        &&& self.draining ==> self.signals + count_of(self.states(), WorkerState::Stopped)
            == self.workers@.len()
        &&& count_of(self.states(), WorkerState::Stopped) > 0 ==> self.queue@.len() == self.signals
        &&& self.submitted == self.completed + self.failed + count_of(
            self.states(),
            WorkerState::Busy,
        ) + (self.queue@.len() - self.signals)
        &&& self.failed == count_of(self.states(), WorkerState::Lost)
    }

    /// What the invariant says, for those who cannot see the fields.
    pub proof fn lemma_wf(&self)
        requires
            self.wf(),
        ensures
            self.states().len() >= 1,
            0 <= self.signal_count() <= self.messages().len(),
            forall|i: int|
                0 <= i < self.messages().len() ==> ((#[trigger] self.messages()[i]) is Terminate
                    <==> i >= self.queued_count()),
            !self.draining() ==> self.signal_count() == 0 && count_of(
                self.states(),
                WorkerState::Stopped,
            ) == 0,
            self.draining() ==> self.signal_count() + count_of(
                self.states(),
                WorkerState::Stopped,
            ) == self.states().len(),
            count_of(self.states(), WorkerState::Stopped) > 0 ==> self.queued_count() == 0,
            self.submitted_count() == self.completed_count() + self.failed_count() + count_of(
                self.states(),
                WorkerState::Busy,
            ) + self.queued_count(),
            self.failed_count() == count_of(self.states(), WorkerState::Lost),
    {
    }

    /// What construction returns on a host with the given number of
    /// logical cores: a running pool with as many idle workers as
    /// `capacity_spec` gives, an empty queue and no job counted; or the
    /// error, where the request is above the limit.
    pub open spec fn opened(
        r: Result<ThreadPool<J>, MyErrors>,
        threads: Option<usize>,
        cores: usize,
    ) -> bool {
        match r {
            Ok(pool) => {
                &&& pool.wf()
                &&& capacity_spec(threads, cores) == Some(pool.states().len() as usize)
                &&& forall|i: int|
                    0 <= i < pool.states().len() ==> pool.states()[i] == WorkerState::Idle
                &&& pool.messages().len() == 0
                &&& !pool.draining()
                &&& pool.submitted_count() == 0
                &&& pool.completed_count() == 0
                &&& pool.failed_count() == 0
            },
            Err(e) => capacity_spec(threads, cores) is None && e is InvalidConfig && e.text()
                == limit_message(limit_of(cores)),
        }
    }

    /// A pool for a host with the given number of logical cores: with the
    /// requested number of workers, or with half of the cores (and at least
    /// one worker) where none is requested. A request above half of the
    /// cores is an error.
    pub fn with_cores(threads: Option<usize>, cores: usize) -> (r: Result<ThreadPool<J>, MyErrors>)
        requires
            threads != Some(0usize),
        ensures
            Self::opened(r, threads, cores),
    {
        let size = match capacity(threads, cores) {
            Ok(size) => size,
            Err(e) => {
                return Err(e);
            },
        };
        let mut workers: Vec<Worker> = Vec::new();
        let mut id: usize = 0;
        while id < size
            invariant
                id <= size,
                workers@.len() == id,
                forall|i: int|
                    0 <= i < id ==> (#[trigger] workers@[i]).id == i && workers@[i].state
                        == WorkerState::Idle,
            decreases size - id,
        {
            workers.push(Worker::new(id));
            id += 1;
        }
        let pool = ThreadPool {
            workers,
            queue: VecDeque::new(),
            signals: 0,
            draining: false,
            submitted: 0,
            completed: 0,
            failed: 0,
        };
        proof {
            lemma_count_bounds(pool.states(), WorkerState::Stopped);
            lemma_count_bounds(pool.states(), WorkerState::Busy);
            lemma_count_bounds(pool.states(), WorkerState::Lost);
        }
        Ok(pool)
    }

    /// A pool for this host: see `with_cores`. How many logical cores the
    /// host has is asked of the system, so the result is what `with_cores`
    /// returns for some number of cores.
    pub fn new(threads: Option<usize>) -> (r: Result<ThreadPool<J>, MyErrors>)
        requires
            threads != Some(0usize),
        ensures
            exists|cores: usize| #[trigger] Self::opened(r, threads, cores),
    {
        let cores = logical_cores();
        let r = Self::with_cores(threads, cores);
        assert(Self::opened(r, threads, cores));
        r
    }

    /// How many workers the pool has.
    pub fn size(&self) -> (r: usize)
        ensures
            r == self.states().len(),
    {
        self.workers.len()
    }

    /// How many jobs the pool has taken.
    pub fn submitted(&self) -> (r: u64)
        ensures
            r == self.submitted_count(),
    {
        self.submitted
    }

    /// How many jobs have run to their end.
    pub fn completed(&self) -> (r: u64)
        ensures
            r == self.completed_count(),
    {
        self.completed
    }

    /// How many jobs have panicked.
    pub fn failed(&self) -> (r: u64)
        ensures
            r == self.failed_count(),
    {
        self.failed
    }

    /// How many jobs wait in the queue.
    pub fn queued(&self) -> (r: usize)
        requires
            self.wf(),
        ensures
            r == self.queued_count(),
    {
        self.queue.len() - self.signals
    }

    /// What the worker `id` is doing, if there is such a worker.
    pub fn state(&self, id: usize) -> (r: Option<WorkerState>)
        ensures
            match r {
                Some(s) => id < self.states().len() && s == self.states()[id as int],
                None => id >= self.states().len(),
            },
    {
        if id < self.workers.len() {
            Some(self.workers[id].state)
        } else {
            None
        }
    }

    /// Where the pool stands.
    pub fn phase(&self) -> (r: Phase)
        ensures
            r == Phase::Running <==> !self.draining(),
            r == Phase::Terminated <==> self.terminated(),
    {
        if !self.draining {
            return Phase::Running;
        }
        let mut i: usize = 0;
        while i < self.workers.len()
            invariant
                i <= self.workers.len(),
                self.draining,
                forall|j: int|
                    0 <= j < i ==> self.states()[j] == WorkerState::Stopped || self.states()[j]
                        == WorkerState::Lost,
            decreases self.workers.len() - i,
        {
            match self.workers[i].state {
                WorkerState::Stopped | WorkerState::Lost => {},
                _ => {
                    assert(!(self.states()[i as int] == WorkerState::Stopped || self.states()[i as int]
                        == WorkerState::Lost));
                    return Phase::Draining;
                },
            }
            i += 1;
        }
        Phase::Terminated
    }

    /// Queues a job behind those that wait. A pool that is shutting down
    /// takes no job, nor one that has taken `u64::MAX` jobs: the job is
    /// handed back.
    pub fn execute(&mut self, job: J) -> (r: Option<J>)
        requires
            old(self).wf(),
        ensures
            final(self).wf(),
            final(self).states() == old(self).states(),
            final(self).draining() == old(self).draining(),
            final(self).completed_count() == old(self).completed_count(),
            final(self).failed_count() == old(self).failed_count(),
            r is None <==> !old(self).draining() && old(self).submitted_count() < u64::MAX,
            match r {
                None => {
                    &&& final(self).messages() == old(self).messages().push(Message::NewJob(job))
                    &&& final(self).submitted_count() == old(self).submitted_count() + 1
                },
                Some(back) => {
                    &&& back == job
                    &&& final(self).messages() == old(self).messages()
                    &&& final(self).submitted_count() == old(self).submitted_count()
                },
            },
    {
        if self.draining || self.submitted == u64::MAX {
            return Some(job);
        }
        self.queue.push_back(Message::NewJob(job));
        self.submitted = self.submitted + 1;
        None
    }

    /// Tells the pool to shut down: one terminate signal for each worker is
    /// queued behind the jobs that wait. A second call changes nothing.
    pub fn shutdown(&mut self)
        requires
            old(self).wf(),
        ensures
            final(self).wf(),
            final(self).draining(),
            final(self).states() == old(self).states(),
            final(self).submitted_count() == old(self).submitted_count(),
            final(self).completed_count() == old(self).completed_count(),
            final(self).failed_count() == old(self).failed_count(),
            final(self).messages() == if old(self).draining() {
                old(self).messages()
            } else {
                old(self).messages() + Seq::new(
                    old(self).states().len(),
                    |i: int| Message::<J>::Terminate,
                )
            },
            !old(self).draining() ==> final(self).signal_count() == old(self).states().len(),
    {
        if self.draining {
            return ;
        }
        let ghost before = self.queue@;
        let mut sent: usize = 0;
        while sent < self.workers.len()
            invariant
                sent <= self.workers.len(),
                old(self).wf(),
                self.workers == old(self).workers,
                self.signals == old(self).signals,
                self.draining == old(self).draining,
                !self.draining,
                self.submitted == old(self).submitted,
                self.completed == old(self).completed,
                self.failed == old(self).failed,
                before == old(self).queue@,
                self.queue@.len() == before.len() + sent,
                self.queue@.take(before.len() as int) == before,
                forall|i: int| before.len() <= i < self.queue@.len() ==> self.queue@[i] is Terminate,
            decreases self.workers.len() - sent,
        {
            self.queue.push_back(Message::Terminate);
            assert(self.queue@.take(before.len() as int) =~= before);
            sent += 1;
        }
        self.signals = self.workers.len();
        self.draining = true;
        proof {
            assert(self.queue@ =~= before + Seq::new(
                self.workers@.len(),
                |i: int| Message::<J>::Terminate,
            )) by {
                assert forall|i: int| 0 <= i < self.queue@.len() implies self.queue@[i] == (before
                    + Seq::new(self.workers@.len(), |i: int| Message::<J>::Terminate))[i] by {
                    if i < before.len() {
                        assert(self.queue@.take(before.len() as int)[i] == before[i]);
                    } else {
                        assert(self.queue@[i] is Terminate);
                    }
                }
            }
            assert forall|i: int| 0 <= i < self.queue@.len() implies ((#[trigger] self.queue@[i])
                is Terminate <==> i >= self.queue@.len() - self.signals) by {
                if i < before.len() {
                    assert(self.queue@.take(before.len() as int)[i] == before[i]);
                }
            }
        }
    }

    /// The next message for the idle worker `id`: the oldest one that
    /// waits. With a job the worker becomes busy; with a terminate signal
    /// it stops. There is nothing for a worker that is not idle, and
    /// nothing while the queue is empty.
    pub fn receive(&mut self, id: usize) -> (r: Option<Message<J>>)
        requires
            old(self).wf(),
        ensures
            final(self).wf(),
            final(self).draining() == old(self).draining(),
            final(self).submitted_count() == old(self).submitted_count(),
            final(self).completed_count() == old(self).completed_count(),
            final(self).failed_count() == old(self).failed_count(),
            r is Some <==> id < old(self).states().len() && old(self).states()[id as int]
                == WorkerState::Idle && old(self).messages().len() > 0,
            match r {
                Some(m) => {
                    &&& m == old(self).messages().first()
                    &&& final(self).messages() == old(self).messages().drop_first()
                    &&& final(self).states() == old(self).states().update(
                        id as int,
                        if m is Terminate {
                            WorkerState::Stopped
                        } else {
                            WorkerState::Busy
                        },
                    )
                },
                None => {
                    &&& final(self).messages() == old(self).messages()
                    &&& final(self).states() == old(self).states()
                },
            },
    {
        if id >= self.workers.len() {
            return None;
        }
        match self.workers[id].state {
            WorkerState::Idle => {},
            _ => {
                return None;
            },
        }
        let ghost states = self.states();
        let ghost before = self.queue@;
        match self.queue.pop_front() {
            Some(Message::NewJob(job)) => {
                self.workers.set(id, Worker { id, state: WorkerState::Busy });
                proof {
                    assert(self.states() =~= states.update(id as int, WorkerState::Busy));
                    lemma_count_update(states, id as int, WorkerState::Busy, WorkerState::Busy);
                    lemma_count_update(states, id as int, WorkerState::Busy, WorkerState::Stopped);
                    lemma_count_update(states, id as int, WorkerState::Busy, WorkerState::Lost);
                    assert(before.len() > self.signals);
                    assert forall|i: int| 0 <= i < self.queue@.len() implies ((
                    #[trigger] self.queue@[i]) is Terminate <==> i >= self.queue@.len()
                        - self.signals) by {
                        assert(self.queue@[i] == before[i + 1]);
                    }
                    assert(before.drop_first() =~= self.queue@);
                }
                Some(Message::NewJob(job))
            },
            Some(Message::Terminate) => {
                proof {
                    assert(before[0] is Terminate);
                    assert(before.len() == self.signals);
                }
                self.signals = self.signals - 1;
                self.workers.set(id, Worker { id, state: WorkerState::Stopped });
                proof {
                    assert(self.states() =~= states.update(id as int, WorkerState::Stopped));
                    lemma_count_update(states, id as int, WorkerState::Stopped, WorkerState::Busy);
                    lemma_count_update(
                        states,
                        id as int,
                        WorkerState::Stopped,
                        WorkerState::Stopped,
                    );
                    lemma_count_update(states, id as int, WorkerState::Stopped, WorkerState::Lost);
                    assert forall|i: int| 0 <= i < self.queue@.len() implies ((
                    #[trigger] self.queue@[i]) is Terminate <==> i >= self.queue@.len()
                        - self.signals) by {
                        assert(self.queue@[i] == before[i + 1]);
                    }
                    assert(before.drop_first() =~= self.queue@);
                }
                Some(Message::Terminate)
            },
            None => None,
        }
    }

    /// Notes that the busy worker `id` has run its job to the end: it is
    /// idle again. Returns whether there was such a worker.
    pub fn finish(&mut self, id: usize) -> (r: bool)
        requires
            old(self).wf(),
        ensures
            final(self).wf(),
            final(self).draining() == old(self).draining(),
            final(self).messages() == old(self).messages(),
            final(self).submitted_count() == old(self).submitted_count(),
            final(self).failed_count() == old(self).failed_count(),
            r <==> id < old(self).states().len() && old(self).states()[id as int]
                == WorkerState::Busy,
            r ==> final(self).states() == old(self).states().update(id as int, WorkerState::Idle)
                && final(self).completed_count() == old(self).completed_count() + 1,
            !r ==> final(self).states() == old(self).states() && final(self).completed_count()
                == old(self).completed_count(),
    {
        if id >= self.workers.len() {
            return false;
        }
        match self.workers[id].state {
            WorkerState::Busy => {},
            _ => {
                return false;
            },
        }
        let ghost states = self.states();
        proof {
            lemma_count_update(states, id as int, WorkerState::Idle, WorkerState::Busy);
            lemma_count_update(states, id as int, WorkerState::Idle, WorkerState::Stopped);
            lemma_count_update(states, id as int, WorkerState::Idle, WorkerState::Lost);
        }
        self.workers.set(id, Worker { id, state: WorkerState::Idle });
        self.completed = self.completed + 1;
        assert(self.states() =~= states.update(id as int, WorkerState::Idle));
        true
    }

    /// Notes that the job of the busy worker `id` has panicked: the worker
    /// is lost. Returns whether there was such a worker.
    pub fn fail(&mut self, id: usize) -> (r: bool)
        requires
            old(self).wf(),
        ensures
            final(self).wf(),
            final(self).draining() == old(self).draining(),
            final(self).messages() == old(self).messages(),
            final(self).submitted_count() == old(self).submitted_count(),
            final(self).completed_count() == old(self).completed_count(),
            r <==> id < old(self).states().len() && old(self).states()[id as int]
                == WorkerState::Busy,
            r ==> final(self).states() == old(self).states().update(id as int, WorkerState::Lost)
                && final(self).failed_count() == old(self).failed_count() + 1,
            !r ==> final(self).states() == old(self).states() && final(self).failed_count() == old(
                self,
            ).failed_count(),
    {
        if id >= self.workers.len() {
            return false;
        }
        match self.workers[id].state {
            WorkerState::Busy => {},
            _ => {
                return false;
            },
        }
        let ghost states = self.states();
        proof {
            lemma_count_update(states, id as int, WorkerState::Lost, WorkerState::Busy);
            lemma_count_update(states, id as int, WorkerState::Lost, WorkerState::Stopped);
            lemma_count_update(states, id as int, WorkerState::Lost, WorkerState::Lost);
        }
        self.workers.set(id, Worker { id, state: WorkerState::Lost });
        self.failed = self.failed + 1;
        assert(self.states() =~= states.update(id as int, WorkerState::Lost));
        true
    }

    /// When the pool has terminated and a worker has stopped by a signal,
    /// no job is left behind: each job that was submitted has run to its
    /// end or has panicked.
    pub proof fn lemma_drained(&self)
        requires
            self.wf(),
            self.terminated(),
            exists|i: int| 0 <= i < self.states().len() && self.states()[i] == WorkerState::Stopped,
        ensures
            self.queued_count() == 0,
            self.completed_count() + self.failed_count() == self.submitted_count(),
    {
        lemma_count_bounds(self.states(), WorkerState::Stopped);
        lemma_count_bounds(self.states(), WorkerState::Busy);
    }

    /// When the pool has terminated and no job has panicked, every job that
    /// was submitted has run to its end: as many are completed as were
    /// submitted.
    pub proof fn lemma_all_jobs_complete(&self)
        requires
            self.wf(),
            self.terminated(),
            self.failed_count() == 0,
        ensures
            self.completed_count() == self.submitted_count(),
            self.messages().len() == 0,
    {
        lemma_count_bounds(self.states(), WorkerState::Lost);
        lemma_count_bounds(self.states(), WorkerState::Stopped);
        lemma_count_bounds(self.states(), WorkerState::Busy);
        assert(self.states()[0] == WorkerState::Stopped);
    }
}

} // verus!
