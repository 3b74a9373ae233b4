//! Watching a search: what is counted for diagnosis, and what costs nothing otherwise.
use vstd::prelude::*;

verus! {

/// The queues that tasks wait in.
#[derive(Clone, Copy, Debug, PartialEq, Eq, Structural)]
pub enum QueueKind {
    Gather,
    Eval,
    Nn,
    Backprop,
}

/// A note of when a task began to wait, by a clock in nanoseconds.
pub trait QueueStamp: Sized {
    /// When the wait began, where that is noted.
    spec fn marked_at(&self) -> Option<u64>;

    /// What is noted at a time.
    spec fn noted(now_ns: u64) -> Option<u64>;

    /// Notes that a wait begins.
    fn mark(&mut self, now_ns: u64)
        ensures
            final(self).marked_at() == Self::noted(now_ns),
    ;

    /// Ends the wait and says how long it took, if its beginning was noted.
    fn take_wait(&mut self, now_ns: u64) -> (r: Option<u64>)
        ensures
            r == waited(old(self).marked_at(), now_ns),
            final(self).marked_at() is None,
    ;
}

/// How long a wait took; a clock that went back counts as none.
pub open spec fn waited(since: Option<u64>, now_ns: u64) -> Option<u64> {
    match since {
        Some(start) => if now_ns > start {
            Some((now_ns - start) as u64)
        } else {
            Some(0)
        },
        None => None,
    }
}

/// Notes nothing.
#[derive(Clone, Copy, Debug, PartialEq, Eq, Structural)]
pub struct NoQueueStamp {}

impl Default for NoQueueStamp {
    fn default() -> (r: Self)
        ensures
            r == (NoQueueStamp {  }),
    {
        NoQueueStamp {  }
    }
}

impl QueueStamp for NoQueueStamp {
    open spec fn marked_at(&self) -> Option<u64> {
        None
    }

    open spec fn noted(now_ns: u64) -> Option<u64> {
        None
    }

    fn mark(&mut self, _now_ns: u64) {
    }

    fn take_wait(&mut self, _now_ns: u64) -> (r: Option<u64>) {
        None
    }
}

/// Notes when each wait began.
#[derive(Clone, Copy, Debug, PartialEq, Eq, Structural)]
pub struct InstantQueueStamp {
    pub queued_at_ns: Option<u64>,
}

impl Default for InstantQueueStamp {
    fn default() -> (r: Self)
        ensures
            r == (InstantQueueStamp { queued_at_ns: None }),
    {
        InstantQueueStamp { queued_at_ns: None }
    }
}

impl QueueStamp for InstantQueueStamp {
    open spec fn marked_at(&self) -> Option<u64> {
        self.queued_at_ns
    }

    open spec fn noted(now_ns: u64) -> Option<u64> {
        Some(now_ns)
    }

    fn mark(&mut self, now_ns: u64) {
        self.queued_at_ns = Some(now_ns);
    }

    fn take_wait(&mut self, now_ns: u64) -> (r: Option<u64>) {
        let since: Option<u64> = self.queued_at_ns;
        self.queued_at_ns = None;
        match since {
            Some(start) => if now_ns > start {
                Some(now_ns - start)
            } else {
                Some(0)
            },
            None => None,
        }
    }
}

/// A sum that begins again where it does not fit.
pub open spec fn wrapped_sum(a: u64, b: u64) -> u64 {
    if a + b > u64::MAX {
        (a + b - u64::MAX - 1) as u64
    } else {
        (a + b) as u64
    }
}

fn add_wrapping(a: u64, b: u64) -> (r: u64)
    ensures
        r == wrapped_sum(a, b),
{
    if a > u64::MAX - b {
        a - (u64::MAX - b) - 1
    } else {
        a + b
    }
}

/// The waits in one queue, added up.
#[derive(Clone, Copy, Debug, PartialEq, Eq, Structural)]
pub struct QueueStats {
    pub samples: u64,
    pub total_wait_ns: u64,
    pub max_wait_ns: u64,
}

/// The waits in one queue, as they are counted.
#[derive(Clone, Copy, Debug, PartialEq, Eq, Structural)]
pub struct QueueMetrics {
    pub samples: u64,
    pub total_wait_ns: u64,
    pub max_wait_ns: u64,
}

impl QueueMetrics {
    pub open spec fn spec_empty() -> Self {
        QueueMetrics { samples: 0, total_wait_ns: 0, max_wait_ns: 0 }
    }

    /// The metrics with one wait more.
    pub open spec fn with_wait(self, wait_ns: u64) -> Self {
        QueueMetrics {
            samples: wrapped_sum(self.samples, 1),
            total_wait_ns: wrapped_sum(self.total_wait_ns, wait_ns),
            max_wait_ns: if wait_ns > self.max_wait_ns {
                wait_ns
            } else {
                self.max_wait_ns
            },
        }
    }

    /// Counts a wait.
    pub fn record(&mut self, wait_ns: u64)
        ensures
            *final(self) == old(self).with_wait(wait_ns),
    {
        self.samples = add_wrapping(self.samples, 1);
        self.total_wait_ns = add_wrapping(self.total_wait_ns, wait_ns);
        if wait_ns > self.max_wait_ns {
            self.max_wait_ns = wait_ns;
        }
    }

    /// The waits so far.
    pub fn snapshot(&self) -> (r: QueueStats)
        ensures
            r == (QueueStats {
                samples: self.samples,
                total_wait_ns: self.total_wait_ns,
                max_wait_ns: self.max_wait_ns,
            }),
    {
        QueueStats {
            samples: self.samples,
            total_wait_ns: self.total_wait_ns,
            max_wait_ns: self.max_wait_ns,
        }
    }
}

impl Default for QueueMetrics {
    fn default() -> (r: Self)
        ensures
            r == Self::spec_empty(),
    {
        QueueMetrics { samples: 0, total_wait_ns: 0, max_wait_ns: 0 }
    }
}

/// Whoever is told what happens in a search.
pub trait SearchObserver: Sized {
    /// What becomes of the observer by each event.
    spec fn saw_submitted(self, after: Self) -> bool;

    spec fn saw_collision(self, after: Self, depth: usize) -> bool;

    spec fn saw_peak(self, after: Self, n: usize) -> bool;

    spec fn saw_queue_wait(self, after: Self, kind: QueueKind, wait_ns: u64) -> bool;

    spec fn saw_batch(self, after: Self, size: usize) -> bool;

    /// A line was begun.
    fn on_submitted(&mut self)
        ensures
            old(self).saw_submitted(*final(self)),
    ;

    /// A line met a claimed node.
    fn on_collision(&mut self, depth: usize)
        requires
            depth < usize::MAX,
        ensures
            old(self).saw_collision(*final(self), depth),
    ;

    /// So many lines were under way.
    fn on_peak_inflight(&mut self, n: usize)
        ensures
            old(self).saw_peak(*final(self), n),
    ;

    /// A task waited in a queue.
    fn on_queue_wait(&mut self, kind: QueueKind, wait_ns: u64)
        ensures
            old(self).saw_queue_wait(*final(self), kind, wait_ns),
    ;

    /// The network evaluated a batch.
    fn on_batch(&mut self, size: usize)
        requires
            size < usize::MAX,
        ensures
            old(self).saw_batch(*final(self), size),
    ;
}

/// Counts nothing.
#[derive(Clone, Copy, Debug, PartialEq, Eq, Structural)]
pub struct NoopObserver {}

impl SearchObserver for NoopObserver {
    open spec fn saw_submitted(self, after: Self) -> bool {
        after == self
    }

    open spec fn saw_collision(self, after: Self, depth: usize) -> bool {
        after == self
    }

    open spec fn saw_peak(self, after: Self, n: usize) -> bool {
        after == self
    }

    open spec fn saw_queue_wait(self, after: Self, kind: QueueKind, wait_ns: u64) -> bool {
        after == self
    }

    open spec fn saw_batch(self, after: Self, size: usize) -> bool {
        after == self
    }

    fn on_submitted(&mut self) {
    }

    fn on_collision(&mut self, _depth: usize) {
    }

    fn on_peak_inflight(&mut self, _n: usize) {
    }

    fn on_queue_wait(&mut self, _kind: QueueKind, _wait_ns: u64) {
    }

    fn on_batch(&mut self, _size: usize) {
    }
}

/// Counts for diagnosis.
#[derive(Debug)]
pub struct BenchObserver {
    pub submitted: u64,
    pub collisions: u64,
    pub peak_in_flight: u64,
    pub collisions_by_depth: Vec<u64>,
    pub batches_by_size: Vec<u64>,
    pub gather_queue: QueueMetrics,
    pub eval_queue: QueueMetrics,
    pub nn_queue: QueueMetrics,
    pub backprop_queue: QueueMetrics,
}

/// What was counted for diagnosis.
#[derive(Debug)]
pub struct BenchStats {
    pub submitted_playouts: u64,
    pub collisions: u64,
    pub peak_in_flight: u64,
    pub collisions_by_depth: Vec<u64>,
    /// How often batches of each size occurred; none is empty.
    pub batches_by_size: Vec<u64>,
    pub gather_queue: QueueStats,
    pub eval_queue: QueueStats,
    pub nn_queue: QueueStats,
    pub backprop_queue: QueueStats,
}

/// A list of counts with one more at a place, made longer where it is too short.
pub open spec fn counted_at(counts: Seq<u64>, place: int) -> Seq<u64> {
    Seq::new(
        if counts.len() > place {
            counts.len()
        } else {
            (place + 1) as nat
        },
        |i: int|
            {
                let before = if i < counts.len() {
                    counts[i]
                } else {
                    0
                };
                if i == place {
                    wrapped_sum(before, 1)
                } else {
                    before
                }
            },
    )
}

fn count_at(counts: &mut Vec<u64>, place: usize)
    requires
        place < usize::MAX,
    ensures
        final(counts)@ == counted_at(old(counts)@, place as int),
{
    let ghost before = counts@;
    while counts.len() <= place
        invariant
            before == old(counts)@,
            counts@.len() >= before.len(),
            counts@.len() > before.len() ==> counts@.len() <= place + 1,
            place < usize::MAX,
            forall|i: int|
                0 <= i < counts@.len() ==> #[trigger] counts@[i] == (if i < before.len() {
                    before[i]
                } else {
                    0
                }),
        decreases place + 1 - counts@.len(),
    {
        counts.push(0);
    }
    let value: u64 = add_wrapping(counts[place], 1);
    counts.set(place, value);
    assert(counts@ =~= counted_at(before, place as int));
}

fn copy_counts(counts: &Vec<u64>) -> (r: Vec<u64>)
    ensures
        r@ == counts@,
{
    let mut out: Vec<u64> = Vec::new();
    let mut i: usize = 0;
    while i < counts.len()
        invariant
            i <= counts@.len(),
            out@ == counts@.take(i as int),
        decreases counts@.len() - i,
    {
        out.push(counts[i]);
        i += 1;
        assert(counts@.take(i as int) =~= counts@.take(i - 1).push(counts@[i - 1]));
    }
    assert(counts@.take(i as int) =~= counts@);
    out
}

impl BenchObserver {
    /// An observer that has counted nothing.
    pub fn new() -> (r: Self)
        ensures
            r.submitted == 0 && r.collisions == 0 && r.peak_in_flight == 0,
            r.collisions_by_depth@.len() == 0 && r.batches_by_size@.len() == 0,
            r.gather_queue == QueueMetrics::spec_empty(),
            r.eval_queue == QueueMetrics::spec_empty(),
            r.nn_queue == QueueMetrics::spec_empty(),
            r.backprop_queue == QueueMetrics::spec_empty(),
    {
        BenchObserver {
            submitted: 0,
            collisions: 0,
            peak_in_flight: 0,
            collisions_by_depth: Vec::new(),
            batches_by_size: Vec::new(),
            gather_queue: QueueMetrics::default(),
            eval_queue: QueueMetrics::default(),
            nn_queue: QueueMetrics::default(),
            backprop_queue: QueueMetrics::default(),
        }
    }

    /// What was counted so far.
    pub fn snapshot(&self) -> (r: BenchStats)
        ensures
            r.submitted_playouts == self.submitted,
            r.collisions == self.collisions,
            r.peak_in_flight == self.peak_in_flight,
            r.collisions_by_depth@ == self.collisions_by_depth@,
            r.batches_by_size@ == self.batches_by_size@,
            r.gather_queue.samples == self.gather_queue.samples,
            r.gather_queue.total_wait_ns == self.gather_queue.total_wait_ns,
            r.gather_queue.max_wait_ns == self.gather_queue.max_wait_ns,
            r.eval_queue.samples == self.eval_queue.samples,
            r.eval_queue.total_wait_ns == self.eval_queue.total_wait_ns,
            r.eval_queue.max_wait_ns == self.eval_queue.max_wait_ns,
            r.nn_queue.samples == self.nn_queue.samples,
            r.nn_queue.total_wait_ns == self.nn_queue.total_wait_ns,
            r.nn_queue.max_wait_ns == self.nn_queue.max_wait_ns,
            r.backprop_queue.samples == self.backprop_queue.samples,
            r.backprop_queue.total_wait_ns == self.backprop_queue.total_wait_ns,
            r.backprop_queue.max_wait_ns == self.backprop_queue.max_wait_ns,
    {
        BenchStats {
            submitted_playouts: self.submitted,
            collisions: self.collisions,
            peak_in_flight: self.peak_in_flight,
            collisions_by_depth: copy_counts(&self.collisions_by_depth),
            batches_by_size: copy_counts(&self.batches_by_size),
            gather_queue: self.gather_queue.snapshot(),
            eval_queue: self.eval_queue.snapshot(),
            nn_queue: self.nn_queue.snapshot(),
            backprop_queue: self.backprop_queue.snapshot(),
        }
    }
}

impl SearchObserver for BenchObserver {
    open spec fn saw_submitted(self, after: Self) -> bool {
        after == (BenchObserver { submitted: wrapped_sum(self.submitted, 1), ..self })
    }

    open spec fn saw_collision(self, after: Self, depth: usize) -> bool {
        &&& after.collisions_by_depth@ == counted_at(self.collisions_by_depth@, depth as int)
        &&& after == (BenchObserver {
            collisions: wrapped_sum(self.collisions, 1),
            collisions_by_depth: after.collisions_by_depth,
            ..self
        })
    }

    open spec fn saw_peak(self, after: Self, n: usize) -> bool {
        after == (BenchObserver {
            peak_in_flight: if n as u64 > self.peak_in_flight {
                n as u64
            } else {
                self.peak_in_flight
            },
            ..self
        })
    }

    open spec fn saw_queue_wait(self, after: Self, kind: QueueKind, wait_ns: u64) -> bool {
        after == (match kind {
            QueueKind::Gather => BenchObserver {
                gather_queue: self.gather_queue.with_wait(wait_ns),
                ..self
            },
            QueueKind::Eval => BenchObserver {
                eval_queue: self.eval_queue.with_wait(wait_ns),
                ..self
            },
            QueueKind::Nn => BenchObserver { nn_queue: self.nn_queue.with_wait(wait_ns), ..self },
            QueueKind::Backprop => BenchObserver {
                backprop_queue: self.backprop_queue.with_wait(wait_ns),
                ..self
            },
        })
    }

    open spec fn saw_batch(self, after: Self, size: usize) -> bool {
        &&& after.batches_by_size@ == (if size == 0 {
            self.batches_by_size@
        } else {
            counted_at(self.batches_by_size@, size as int)
        })
        &&& after == (BenchObserver { batches_by_size: after.batches_by_size, ..self })
    }

    fn on_submitted(&mut self) {
        self.submitted = add_wrapping(self.submitted, 1);
    }

    fn on_collision(&mut self, depth: usize) {
        self.collisions = add_wrapping(self.collisions, 1);
        count_at(&mut self.collisions_by_depth, depth);
    }

    fn on_peak_inflight(&mut self, n: usize) {
        if n as u64 > self.peak_in_flight {
            self.peak_in_flight = n as u64;
        }
    }

    fn on_queue_wait(&mut self, kind: QueueKind, wait_ns: u64) {
        match kind {
            QueueKind::Gather => {
                self.gather_queue.record(wait_ns);
            },
            QueueKind::Eval => {
                self.eval_queue.record(wait_ns);
            },
            QueueKind::Nn => {
                self.nn_queue.record(wait_ns);
            },
            QueueKind::Backprop => {
                self.backprop_queue.record(wait_ns);
            },
        }
    }

    fn on_batch(&mut self, size: usize) {
        if size == 0 {
            return;
        }
        count_at(&mut self.batches_by_size, size);
    }
}

impl Default for BenchObserver {
    fn default() -> (r: Self)
        ensures
            r.submitted == 0 && r.collisions == 0 && r.peak_in_flight == 0,
            r.collisions_by_depth@.len() == 0 && r.batches_by_size@.len() == 0,
            r.gather_queue == QueueMetrics::spec_empty(),
            r.eval_queue == QueueMetrics::spec_empty(),
            r.nn_queue == QueueMetrics::spec_empty(),
            r.backprop_queue == QueueMetrics::spec_empty(),
    {
        BenchObserver::new()
    }
}

/// The longest wait is at least as long as any that was counted.
pub proof fn law_longest_wait(metrics: QueueMetrics, wait_ns: u64)
    ensures
        metrics.with_wait(wait_ns).max_wait_ns >= wait_ns,
        metrics.with_wait(wait_ns).max_wait_ns >= metrics.max_wait_ns,
{
}

} // verus!
