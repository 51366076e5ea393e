//! The decisions of the layer-one download queue: how many blocks to request at
//! once, what to do with each answer, and which downloaded blocks are ready to be
//! emitted, strictly in order of their numbers. The requests, the waiting and the
//! sending are done by whoever drives the queue.
use std::collections::BTreeMap;
use vstd::prelude::*;

use crate::btree_util::first_key;

verus! {

/// How long to wait for a new layer-one block when polling finds none (milliseconds).
pub const DA_BLOCK_TIME_MILLIS: u64 = 12000;

/// How long to back off after hitting the provider's rate limit (milliseconds).
pub const RATE_LIMIT_BACKOFF_MILLIS: u64 = 5000;

/// How the download queue fetches layer-one blocks.
#[derive(Clone, Copy, Debug, PartialEq, Eq)]
pub enum Mode {
    /// Batch-download blocks until we reach the end of the chain.
    Batch,
    /// Poll for new blocks.
    Poll,
}

/// How many blocks each mode downloads concurrently.
pub open spec fn mode_concurrency(mode: Mode) -> nat {
    match mode {
        Mode::Batch => 8,
        Mode::Poll => 1,
    }
}

impl Mode {
    /// How many blocks to download concurrently.
    pub fn concurrency(&self) -> (n: usize)
        ensures
            n == mode_concurrency(*self),
    {
        match self {
            Mode::Batch => 8,
            Mode::Poll => 1,
        }
    }
}

/// What the download of one layer-one block came back with.
pub enum FetchOutcome<B, E> {
    /// The block, under the number its header carries.
    Block { number: u64, block: B },
    /// The block does not exist yet: the end of the chain is reached.
    NotYetAvailable,
    /// The provider refused the request because of its rate limit.
    RateLimited,
    /// Any other failure.
    Failed(E),
}

/// What the driver of the queue does after an answer.
pub enum QueueStep<E> {
    /// Emit the blocks that are ready.
    Emit,
    /// Wait this many milliseconds, then emit the blocks that are ready.
    SleepThenEmit { millis: u64 },
    /// Go back to requesting blocks without emitting, after waiting this many
    /// milliseconds if a wait is given.
    Requeue { sleep_millis: Option<u64> },
    /// Stop with this error.
    Fail(E),
}

/// `k` is the smallest key of `m`.
pub open spec fn is_first_key<V>(m: Map<u64, V>, k: u64) -> bool {
    m.contains_key(k) && forall|j: u64| #[trigger] m.contains_key(j) ==> k <= j
}

/// The state of the download queue.
pub struct DownloadQueue<B> {
    /// The next layer-one height to request.
    next_da_height: u64,
    /// The next layer-one height to emit.
    next_to_emit: u64,
    mode: Mode,
    /// How many requests are in flight.
    pending: usize,
    /// Downloaded blocks not yet emitted, by number.
    completed: BTreeMap<u64, B>,
    /// The height the queue started from.
    start: Ghost<u64>,
    /// The numbers of the blocks emitted so far, in the order they went out.
    emitted: Ghost<Seq<u64>>,
}

impl<B> DownloadQueue<B> {
    pub closed spec fn spec_next_da_height(&self) -> u64 {
        self.next_da_height
    }

    pub closed spec fn spec_next_to_emit(&self) -> u64 {
        self.next_to_emit
    }

    pub closed spec fn spec_mode(&self) -> Mode {
        self.mode
    }

    pub closed spec fn spec_pending(&self) -> nat {
        self.pending as nat
    }

    pub closed spec fn spec_completed(&self) -> Map<u64, B> {
        self.completed@
    }

    pub closed spec fn spec_start(&self) -> u64 {
        self.start@
    }

    pub closed spec fn spec_emitted(&self) -> Seq<u64> {
        self.emitted@
    }

    /// What the queue keeps through every step: the blocks emitted so far are those
    /// numbered from the start on, each once, in order and without a gap, and the next
    /// block to emit comes right after them; the requests in flight and the blocks
    /// waiting to be emitted never number more than the batch concurrency.
    pub open spec fn wf(&self) -> bool {
        &&& self.spec_next_to_emit() == self.spec_start() + self.spec_emitted().len()
        &&& forall|i: int| 0 <= i < self.spec_emitted().len() ==> #[trigger] self.spec_emitted()[i] == self.spec_start() + i
        &&& self.spec_pending() + self.spec_completed().len() <= mode_concurrency(Mode::Batch)
    }

    /// A queue that starts downloading, and emitting, at `da_height`.
    pub fn start_from(da_height: u64) -> (q: Self)
        ensures
            q.spec_next_da_height() == da_height,
            q.spec_next_to_emit() == da_height,
            q.spec_mode() == Mode::Batch,
            q.spec_pending() == 0,
            q.spec_completed() == Map::<u64, B>::empty(),
            q.spec_start() == da_height,
            q.spec_emitted() == Seq::<u64>::empty(),
            q.wf(),
    {
        broadcast use vstd::std_specs::btree::group_btree_axioms;
        DownloadQueue {
            next_da_height: da_height,
            next_to_emit: da_height,
            mode: Mode::Batch,
            pending: 0,
            completed: BTreeMap::new(),
            start: Ghost(da_height),
            emitted: Ghost(Seq::empty()),
        }
    }

    /// The next layer-one height to request.
    pub fn next_da_height(&self) -> (h: u64)
        ensures
            h == self.spec_next_da_height(),
    {
        self.next_da_height
    }

    /// The next layer-one height to emit.
    pub fn next_to_emit(&self) -> (h: u64)
        ensures
            h == self.spec_next_to_emit(),
    {
        self.next_to_emit
    }

    /// The current mode.
    pub fn mode(&self) -> (m: Mode)
        ensures
            m == self.spec_mode(),
    {
        self.mode
    }

    /// Whether some request is in flight.
    pub fn has_pending(&self) -> (b: bool)
        ensures
            b == (self.spec_pending() > 0),
    {
        self.pending > 0
    }

    /// Whether the requests in flight and the blocks waiting to be emitted stay below
    /// the mode's concurrency, so that another download may be queued.
    pub fn can_request(&self) -> (b: bool)
        ensures
            b == (self.spec_pending() + self.spec_completed().len() < mode_concurrency(self.spec_mode())),
    {
        broadcast use vstd::std_specs::btree::group_btree_axioms;
        let limit = self.mode.concurrency();
        self.pending < limit && self.completed.len() < limit - self.pending
    }

    /// Whether the first downloaded block is the next one in line.
    pub fn next_is_ready(&self) -> (b: bool)
        ensures
            b == is_first_key(self.spec_completed(), self.spec_next_to_emit()),
    {
        match first_key(&self.completed) {
            Some(k) => k == self.next_to_emit,
            None => false,
        }
    }

    /// Queues a new download while the requests in flight and the blocks waiting to
    /// be emitted stay below the mode's concurrency: returns the height to request.
    pub fn next_request(&mut self) -> (r: Option<u64>)
        requires
            old(self).wf(),
            old(self).spec_pending() + old(self).spec_completed().len() < mode_concurrency(
                old(self).spec_mode(),
            ) ==> old(self).spec_next_da_height() < u64::MAX,
        ensures
            final(self).wf(),
            final(self).spec_start() == old(self).spec_start(),
            final(self).spec_emitted() == old(self).spec_emitted(),
            final(self).spec_next_to_emit() == old(self).spec_next_to_emit(),
            final(self).spec_mode() == old(self).spec_mode(),
            final(self).spec_completed() == old(self).spec_completed(),
            old(self).spec_mode() == Mode::Poll && r is Some ==> old(self).spec_pending() == 0
                && old(self).spec_completed().len() == 0,
            old(self).spec_pending() + old(self).spec_completed().len() < mode_concurrency(
                old(self).spec_mode(),
            ) ==> {
                &&& r == Some(old(self).spec_next_da_height())
                &&& final(self).spec_next_da_height() == old(self).spec_next_da_height() + 1
                &&& final(self).spec_pending() == old(self).spec_pending() + 1
            },
            old(self).spec_pending() + old(self).spec_completed().len() >= mode_concurrency(
                old(self).spec_mode(),
            ) ==> {
                &&& r is None
                &&& final(self).spec_next_da_height() == old(self).spec_next_da_height()
                &&& final(self).spec_pending() == old(self).spec_pending()
            },
    {
        broadcast use vstd::std_specs::btree::group_btree_axioms;
        let limit = self.mode.concurrency();
        let waiting = self.completed.len();
        if self.pending < limit && waiting < limit - self.pending {
            let h = self.next_da_height;
            self.next_da_height = self.next_da_height + 1;
            self.pending = self.pending + 1;
            Some(h)
        } else {
            None
        }
    }

    /// Takes the answer to one request in flight and decides what comes next.
    pub fn on_fetched<E>(&mut self, outcome: FetchOutcome<B, E>) -> (step: QueueStep<E>)
        requires
            old(self).wf(),
            old(self).spec_pending() > 0,
        ensures
            final(self).wf(),
            final(self).spec_start() == old(self).spec_start(),
            final(self).spec_emitted() == old(self).spec_emitted(),
            final(self).spec_pending() == old(self).spec_pending() - 1,
            final(self).spec_next_to_emit() == old(self).spec_next_to_emit(),
            outcome matches FetchOutcome::Block { number, block } ==> {
                &&& step matches QueueStep::Emit
                &&& final(self).spec_completed() == old(self).spec_completed().insert(number, block)
                &&& final(self).spec_mode() == old(self).spec_mode()
                &&& final(self).spec_next_da_height() == old(self).spec_next_da_height()
            },
            outcome is NotYetAvailable && old(self).spec_mode() == Mode::Batch ==> {
                &&& step matches QueueStep::Emit
                &&& final(self).spec_mode() == Mode::Poll
                &&& final(self).spec_completed() == old(self).spec_completed()
                &&& final(self).spec_next_da_height() == old(self).spec_next_da_height()
            },
            outcome is NotYetAvailable && old(self).spec_mode() == Mode::Poll ==> {
                &&& step matches QueueStep::Requeue { sleep_millis }
                &&& sleep_millis == if final(self).spec_pending() == 0 {
                    Some(DA_BLOCK_TIME_MILLIS)
                } else {
                    None::<u64>
                }
                &&& final(self).spec_mode() == Mode::Poll
                &&& final(self).spec_completed() == old(self).spec_completed()
                &&& final(self).spec_next_da_height() == old(self).spec_next_to_emit()
            },
            outcome is RateLimited ==> {
                &&& step matches QueueStep::SleepThenEmit { millis }
                &&& millis == RATE_LIMIT_BACKOFF_MILLIS
                &&& final(self).spec_mode() == old(self).spec_mode()
                &&& final(self).spec_completed() == old(self).spec_completed()
                &&& final(self).spec_next_da_height() == old(self).spec_next_da_height()
            },
            outcome matches FetchOutcome::Failed(e) ==> {
                &&& step == QueueStep::Fail(e)
                &&& final(self).spec_mode() == old(self).spec_mode()
                &&& final(self).spec_completed() == old(self).spec_completed()
                &&& final(self).spec_next_da_height() == old(self).spec_next_da_height()
            },
    {
        broadcast use vstd::std_specs::btree::group_btree_axioms, vstd::laws_cmp::group_laws_cmp;
        self.pending = self.pending - 1;
        match outcome {
            FetchOutcome::Block { number, block } => {
                self.completed.insert(number, block);
                QueueStep::Emit
            },
            FetchOutcome::NotYetAvailable => {
                match self.mode {
                    Mode::Batch => {
                        self.mode = Mode::Poll;
                        QueueStep::Emit
                    },
                    Mode::Poll => {
                        self.next_da_height = self.next_to_emit;
                        if self.pending == 0 {
                            QueueStep::Requeue { sleep_millis: Some(DA_BLOCK_TIME_MILLIS) }
                        } else {
                            QueueStep::Requeue { sleep_millis: None }
                        }
                    },
                }
            },
            FetchOutcome::RateLimited => QueueStep::SleepThenEmit { millis: RATE_LIMIT_BACKOFF_MILLIS },
            FetchOutcome::Failed(e) => QueueStep::Fail(e),
        }
    }

    /// Emits the first downloaded block if it is the next one in line.
    pub fn pop_ready(&mut self) -> (r: Option<B>)
        requires
            old(self).wf(),
            is_first_key(old(self).spec_completed(), old(self).spec_next_to_emit()) ==> old(
                self,
            ).spec_next_to_emit() < u64::MAX,
        ensures
            final(self).wf(),
            final(self).spec_start() == old(self).spec_start(),
            final(self).spec_next_da_height() == old(self).spec_next_da_height(),
            final(self).spec_mode() == old(self).spec_mode(),
            final(self).spec_pending() == old(self).spec_pending(),
            is_first_key(old(self).spec_completed(), old(self).spec_next_to_emit()) ==> {
                &&& r == Some(old(self).spec_completed()[old(self).spec_next_to_emit()])
                &&& final(self).spec_completed() == old(self).spec_completed().remove(
                    old(self).spec_next_to_emit(),
                )
                &&& final(self).spec_next_to_emit() == old(self).spec_next_to_emit() + 1
                &&& final(self).spec_emitted() == old(self).spec_emitted().push(old(self).spec_next_to_emit())
            },
            !is_first_key(old(self).spec_completed(), old(self).spec_next_to_emit()) ==> {
                &&& r is None
                &&& final(self).spec_completed() == old(self).spec_completed()
                &&& final(self).spec_next_to_emit() == old(self).spec_next_to_emit()
                &&& final(self).spec_emitted() == old(self).spec_emitted()
            },
    {
        broadcast use vstd::std_specs::btree::group_btree_axioms, vstd::laws_cmp::group_laws_cmp;
        match first_key(&self.completed) {
            Some(k) => {
                if k == self.next_to_emit {
                    let r = self.completed.remove(&k);
                    self.emitted = Ghost(self.emitted@.push(k));
                    self.next_to_emit = self.next_to_emit + 1;
                    r
                } else {
                    None
                }
            },
            None => None,
        }
    }
}

} // verus!
