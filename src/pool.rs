use vstd::prelude::*;

verus! {

#[derive(Debug)]
pub enum PoolError {
    /// A worker thread could not be joined; the text describes why.
    CouldNotJoin(String),
}

/// Message sent to a worker
pub enum WorkerMessage<T> {
    Work(T),
    Resign,
}

/// How a worker ended: `Panic` if any task it ran panicked, else `Clean`.
#[derive(Debug, Clone, Copy, PartialEq, Eq, Structural)]
pub enum WorkerResult {
    Panic,
    Clean,
}

/// What a worker's receive loop learns on one turn.
#[derive(Debug, Clone, Copy, PartialEq, Eq, Structural)]
pub enum WorkerEvent {
    /// A task ran to its end or panicked.
    Finished { panicked: bool },
    /// A resign message arrived.
    Resign,
    /// The channel is empty and closed.
    Closed,
}

/// What a worker does next.
#[derive(Debug, Clone, Copy, PartialEq, Eq, Structural)]
pub enum Flow {
    Continue,
    Stop(WorkerResult),
}

pub open spec fn outcome_of(panicked: bool) -> WorkerResult {
    if panicked {
        WorkerResult::Panic
    } else {
        WorkerResult::Clean
    }
}

/// One turn of a worker whose tasks have panicked so far iff `panicked`.
pub open spec fn worker_step(panicked: bool, e: WorkerEvent) -> (bool, Flow) {
    match e {
        WorkerEvent::Finished { panicked: p } => (panicked || p, Flow::Continue),
        _ => (panicked, Flow::Stop(outcome_of(panicked))),
    }
}

/// The outcome of a worker that goes through `evs` until it stops.
pub open spec fn final_outcome(panicked: bool, evs: Seq<WorkerEvent>) -> WorkerResult
    decreases evs.len(),
{
    if evs.len() == 0 {
        outcome_of(panicked)
    } else {
        match worker_step(panicked, evs[0]) {
            (p, Flow::Continue) => final_outcome(p, evs.drop_first()),
            (_, Flow::Stop(r)) => r,
        }
    }
}

/// How many of the tasks in `evs` a worker runs before it stops.
pub open spec fn tasks_run(panicked: bool, evs: Seq<WorkerEvent>) -> nat
    decreases evs.len(),
{
    if evs.len() == 0 {
        0
    } else {
        match worker_step(panicked, evs[0]) {
            (p, Flow::Continue) => 1 + tasks_run(p, evs.drop_first()),
            (_, Flow::Stop(_)) => 0,
        }
    }
}

/// The state of a worker's receive loop.
pub struct WorkerState {
    panic_occurred: bool,
}

impl WorkerState {
    /// Whether a task of this worker has panicked.
    pub closed spec fn panicked(&self) -> bool {
        self.panic_occurred
    }

    pub fn new() -> (r: Self)
        ensures
            !r.panicked(),
    {
        WorkerState { panic_occurred: false }
    }

    /// Takes in one turn of the receive loop and says whether to go on.
    pub fn on_event(&mut self, event: WorkerEvent) -> (r: Flow)
        ensures
            (final(self).panicked(), r) == worker_step(old(self).panicked(), event),
    {
        match event {
            WorkerEvent::Finished { panicked } => {
                if panicked {
                    self.panic_occurred = true;
                }
                Flow::Continue
            },
            _ => Flow::Stop(self.outcome()),
        }
    }

    pub fn outcome(&self) -> (r: WorkerResult)
        ensures
            r == outcome_of(self.panicked()),
    {
        if self.panic_occurred {
            WorkerResult::Panic
        } else {
            WorkerResult::Clean
        }
    }
}

/// Panic isolation: a worker whose task panicked still runs every later
/// task that a worker without a panic would run, and ends with `Panic`.
pub proof fn lemma_panic_isolation(evs: Seq<WorkerEvent>, k: int)
    requires
        0 <= k < evs.len(),
        evs[k] == (WorkerEvent::Finished { panicked: true }),
        forall|j: int| 0 <= j < k ==> (#[trigger] evs[j]) is Finished,
    ensures
        final_outcome(false, evs) == WorkerResult::Panic,
        tasks_run(false, evs) == k + 1 + tasks_run(false, evs.subrange(k + 1, evs.len() as int)),
    decreases k,
{
    if k == 0 {
        assert(evs.drop_first() =~= evs.subrange(1, evs.len() as int));
        lemma_outcome_stays_panic(evs.drop_first());
        lemma_tasks_ignore_panics(true, evs.drop_first());
    } else {
        let p = match evs[0] {
            WorkerEvent::Finished { panicked } => panicked,
            _ => false,
        };
        let rest = evs.drop_first();
        assert(rest.subrange(k, rest.len() as int) =~= evs.subrange(k + 1, evs.len() as int));
        lemma_tasks_ignore_panics(p, rest);
        lemma_final_outcome_panics(p, rest, k - 1);
        lemma_panic_isolation(rest, k - 1);
    }
}

/// Whether earlier tasks panicked does not change which tasks run.
pub proof fn lemma_tasks_ignore_panics(p: bool, evs: Seq<WorkerEvent>)
    ensures
        tasks_run(p, evs) == tasks_run(false, evs),
    decreases evs.len(),
{
    if evs.len() > 0 {
        match evs[0] {
            WorkerEvent::Finished { panicked } => {
                lemma_tasks_ignore_panics(p || panicked, evs.drop_first());
                lemma_tasks_ignore_panics(panicked, evs.drop_first());
            },
            _ => {},
        }
    }
}

proof fn lemma_outcome_stays_panic(evs: Seq<WorkerEvent>)
    ensures
        final_outcome(true, evs) == WorkerResult::Panic,
    decreases evs.len(),
{
    if evs.len() > 0 {
        lemma_outcome_stays_panic(evs.drop_first());
    }
}

proof fn lemma_final_outcome_panics(p: bool, evs: Seq<WorkerEvent>, k: int)
    requires
        0 <= k < evs.len(),
        evs[k] == (WorkerEvent::Finished { panicked: true }),
        forall|j: int| 0 <= j < k ==> (#[trigger] evs[j]) is Finished,
    ensures
        final_outcome(p, evs) == WorkerResult::Panic,
    decreases k,
{
    if k == 0 {
        lemma_outcome_stays_panic(evs.drop_first());
    } else {
        let q = match evs[0] {
            WorkerEvent::Finished { panicked } => p || panicked,
            _ => p,
        };
        assert(evs[0] is Finished);
        assert forall|j: int| 0 <= j < k - 1 implies (#[trigger] evs.drop_first()[j]) is Finished by {
            assert(evs.drop_first()[j] == evs[j + 1]);
        }
        lemma_final_outcome_panics(q, evs.drop_first(), k - 1);
    }
}

/// The outcomes of all workers in order, or the first failure to join one.
pub fn collect_outcomes(results: Vec<Result<WorkerResult, PoolError>>) -> (r: Result<
    Vec<WorkerResult>,
    PoolError,
>)
    ensures
        (forall|i: int| 0 <= i < results@.len() ==> (#[trigger] results@[i]) is Ok) <==> r is Ok,
        r matches Ok(v) ==> v@.len() == results@.len() && forall|i: int|
            0 <= i < v@.len() ==> results@[i] == Ok::<WorkerResult, PoolError>(#[trigger] v@[i]),
        r matches Err(e) ==> exists|i: int|
            0 <= i < results@.len() && results@[i] == Err::<WorkerResult, PoolError>(e) && forall|
                j: int,
            | 0 <= j < i ==> (#[trigger] results@[j]) is Ok,
{
    let mut out: Vec<WorkerResult> = Vec::new();
    let mut rest = results;
    let ghost all = rest@;
    assert(all == results@);
    let n = rest.len();
    let mut i: usize = 0;
    while rest.len() > 0
        invariant
            all == results@,
            all.len() == n,
            i <= n,
            rest@ == all.subrange(i as int, n as int),
            out@.len() == i,
            forall|j: int| 0 <= j < i ==> all[j] == Ok::<WorkerResult, PoolError>(#[trigger] out@[j]),
        decreases rest@.len(),
    {
        let next = rest.remove(0);
        proof {
            assert(next == all[i as int]);
            assert(rest@ =~= all.subrange(i + 1, n as int));
        }
        match next {
            Ok(w) => {
                out.push(w);
                i += 1;
            },
            Err(e) => {
                proof {
                    assert(!(results@[i as int] is Ok));
                    assert(results@[i as int] == Err::<WorkerResult, PoolError>(e));
                    assert forall|j: int| 0 <= j < i implies (#[trigger] results@[j]) is Ok by {
                        assert(all[j] == Ok::<WorkerResult, PoolError>(out@[j]));
                    }
                }
                return Err(e);
            },
        }
    }
    proof {
        assert(i == n);
        assert forall|j: int| 0 <= j < results@.len() implies (#[trigger] results@[j]) is Ok by {
            assert(all[j] == Ok::<WorkerResult, PoolError>(out@[j]));
        }
    }
    Ok(out)
}


/// The work channel once `join` has sent its resigns: `tasks` tasks
/// (`true`) queued before, then one resign (`false`) per worker.
pub open spec fn join_queue(tasks: nat, workers: nat) -> Seq<bool> {
    Seq::new(tasks, |i: int| true) + Seq::new(workers, |i: int| false)
}

/// A way the channel can hand out `queue`, first message first: message `k`
/// goes to worker `takers[k]`, one of `n`, which has not taken a resign
/// before it.
pub open spec fn valid_schedule(queue: Seq<bool>, takers: Seq<int>, n: int) -> bool {
    &&& takers.len() == queue.len()
    &&& forall|k: int| 0 <= k < takers.len() ==> 0 <= #[trigger] takers[k] < n
    &&& forall|j: int, k: int|
        0 <= j < k < takers.len() && !queue[j] ==> #[trigger] takers[j] != #[trigger] takers[k]
}

/// Worker `w` takes one of the messages `from..to`.
pub open spec fn takes_one_of(takers: Seq<int>, from: int, to: int, w: int) -> bool {
    exists|j: int| from <= j < to && takers[j] == w
}

/// Shutdown completeness: the channel hands out first first, so the tasks
/// queued before `join` reach workers before any resign does and none is
/// discarded; and however the resigns are handed out, each worker takes
/// one of them, so every worker stops and `join` returns.
pub proof fn lemma_shutdown_complete(tasks: nat, n: nat, takers: Seq<int>)
    requires
        valid_schedule(join_queue(tasks, n), takers, n as int),
    ensures
        forall|w: int| 0 <= w < n ==> #[trigger] takes_one_of(takers, tasks as int, (tasks + n) as int, w),
{
    let q = join_queue(tasks, n);
    let r = takers.subrange(tasks as int, (tasks + n) as int);
    assert forall|a: int, b: int| 0 <= a < r.len() && 0 <= b < r.len() && a != b implies r[a] != r[b] by {
        let (x, y) = if a < b { (a, b) } else { (b, a) };
        assert(!q[tasks + x]);
        assert(takers[tasks + x] != takers[tasks + y]);
    }
    assert(r.no_duplicates());
    r.unique_seq_to_set();
    vstd::set_lib::lemma_int_range(0, n as int);
    let range = vstd::set_lib::set_int_range(0, n as int);
    assert forall|w: int| r.to_set().contains(w) implies range.contains(w) by {
        let a = choose|a: int| 0 <= a < r.len() && r[a] == w;
        assert(takers[tasks + a] == w);
    }
    vstd::set_lib::lemma_subset_equality(r.to_set(), range);
    assert forall|w: int| 0 <= w < n implies #[trigger] takes_one_of(takers, tasks as int, (tasks + n) as int, w) by {
        assert(range.contains(w));
        assert(r.to_set().contains(w));
        let a = choose|a: int| 0 <= a < r.len() && r[a] == w;
        assert(takers[tasks + a] == w);
    }
}

} // verus!
