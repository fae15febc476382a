use vstd::prelude::*;
use crate::chunking::{chunk_len_of, next_chunk_len};
use crate::digest::{hex_of, sha256_of, Accumulator};
use crate::progress::{percent_of, ProgressTracker};

verus! {

/// The state of one file task as its consumer sees it.
#[derive(Clone, Debug, PartialEq, Eq)]
pub enum FileState {
    /// No bytes processed yet.
    Pending,
    /// Hashing is under way; `percent` lies in `[0, 100]`.
    InProgress { percent: u64 },
    /// Terminal: the lowercase hexadecimal digest of the whole file.
    Completed { digest: String },
}

/// The mathematical form of a `FileState`.
pub enum StateView {
    Pending,
    InProgress(nat),
    Completed(Seq<char>),
}

impl View for FileState {
    type V = StateView;

    open spec fn view(&self) -> StateView {
        match self {
            FileState::Pending => StateView::Pending,
            FileState::InProgress { percent } => StateView::InProgress(*percent as nat),
            FileState::Completed { digest } => StateView::Completed(digest@),
        }
    }
}

/// What became of an attempt to hand an event to the consumer.
#[derive(Clone, Copy, Debug, PartialEq, Eq, Structural)]
pub enum SendOutcome {
    /// The event was queued for the consumer.
    Delivered,
    /// The output queue was full and the event was dropped.
    Full,
    /// Nobody listens any more: the task is cancelled.
    Disconnected,
}

/// Events in the order a task emits them: percentages never go down and stay
/// within `[0, 100]`, nothing is `Pending`, and a `Completed` event can only be
/// the last one.
pub open spec fn log_ordered(log: Seq<StateView>) -> bool {
    &&& forall|i: int, j: int, a: nat, b: nat|
        0 <= i < j < log.len() && log[i] == StateView::InProgress(a) && log[j]
            == StateView::InProgress(b) ==> a <= b
    &&& forall|i: int, a: nat|
        0 <= i < log.len() && log[i] == StateView::InProgress(a) ==> a <= 100
    &&& forall|i: int| 0 <= i < log.len() ==> !(#[trigger] log[i] is Pending)
    &&& forall|i: int| 0 <= i < log.len() - 1 ==> !(#[trigger] log[i] is Completed)
}

/// The event that completes a task whose file content is `fed`.
pub open spec fn completed_for(fed: Seq<u8>) -> StateView {
    StateView::Completed(hex_of(sha256_of(fed)))
}

/// The pipeline of one file: it asks for buffers in file order, folds them
/// into the digest, proposes progress events and the final event, and stops
/// for good on a read failure or when the consumer has gone away.
pub struct Pipeline {
    size: u64,
    tracker: ProgressTracker,
    acc: Accumulator,
    started: bool,
    completed: bool,
    stopped: bool,
    fed: Ghost<Seq<u8>>,
    log: Ghost<Seq<StateView>>,
}

impl Pipeline {
    /// The file size captured when the task began.
    pub closed spec fn size_spec(&self) -> nat {
        self.size as nat
    }

    /// The bytes folded into the digest so far, in order.
    pub closed spec fn fed_spec(&self) -> Seq<u8> {
        self.fed@
    }

    /// Every event proposed so far, in order.
    pub closed spec fn log_spec(&self) -> Seq<StateView> {
        self.log@
    }

    pub closed spec fn is_started(&self) -> bool {
        self.started
    }

    pub closed spec fn is_completed(&self) -> bool {
        self.completed
    }

    pub closed spec fn is_stopped(&self) -> bool {
        self.stopped
    }

    /// The pipeline still expects buffers.
    pub open spec fn reading(&self) -> bool {
        self.is_started() && !self.is_stopped() && !self.is_completed() && self.fed_spec().len()
            < self.size_spec()
    }

    pub closed spec fn wf(&self) -> bool {
        &&& self.tracker.wf()
        &&& self.tracker.total_spec() == self.size
        &&& self.tracker.done_spec() == self.fed@.len()
        &&& !self.completed ==> self.acc@ == self.fed@
        &&& !self.started ==> self.log@.len() == 0 && self.fed@.len() == 0 && !self.completed
        &&& self.started ==> self.log@.len() > 0
        &&& log_ordered(self.log@)
        &&& forall|i: int, a: nat|
            0 <= i < self.log@.len() && self.log@[i] == StateView::InProgress(a) ==> a
                <= self.tracker.last_spec()
        &&& self.completed ==> self.fed@.len() == self.size && self.log@.last() == completed_for(
            self.fed@,
        )
        &&& !self.completed ==> forall|i: int|
            0 <= i < self.log@.len() ==> !(#[trigger] self.log@[i] is Completed)
    }

    /// A pipeline for a file of `size` bytes that has not started.
    pub fn new(size: u64) -> (r: Pipeline)
        ensures
            r.wf(),
            r.size_spec() == size,
            !r.is_started(),
            !r.is_completed(),
            !r.is_stopped(),
            r.fed_spec() == Seq::<u8>::empty(),
            r.log_spec() == Seq::<StateView>::empty(),
    {
        Pipeline {
            size,
            tracker: ProgressTracker::new(size),
            acc: Accumulator::new(),
            started: false,
            completed: false,
            stopped: false,
            fed: Ghost(Seq::empty()),
            log: Ghost(Seq::empty()),
        }
    }

    /// The first event, proposed before any byte is read: `InProgress` at 0
    /// for a non-empty file, and straight away the digest of no bytes for an
    /// empty one. A pipeline that has started or stopped proposes nothing.
    pub fn start(&mut self) -> (r: Option<FileState>)
        requires
            old(self).wf(),
        ensures
            final(self).wf(),
            final(self).size_spec() == old(self).size_spec(),
            final(self).fed_spec() == old(self).fed_spec(),
            final(self).is_stopped() == old(self).is_stopped(),
            final(self).is_started() == (old(self).is_started() || !old(self).is_stopped()),
            old(self).is_started() || old(self).is_stopped() ==> r is None && final(self).log_spec()
                == old(self).log_spec() && final(self).is_completed() == old(self).is_completed(),
            !old(self).is_started() && !old(self).is_stopped() ==> {
                let e = if old(self).size_spec() == 0 {
                    completed_for(Seq::<u8>::empty())
                } else {
                    StateView::InProgress(0)
                };
                &&& r matches Some(s) && s@ == e
                &&& final(self).log_spec() == seq![e]
                &&& final(self).is_completed() == (old(self).size_spec() == 0)
            },
    {
        if self.started || self.stopped {
            return None;
        }
        self.started = true;
        assert(self.fed@ =~= Seq::<u8>::empty());
        if self.size == 0 {
            let digest = self.acc.take_digest_hex();
            self.completed = true;
            let ev = FileState::Completed { digest };
            proof { self.log@ = seq![ev@]; }
            Some(ev)
        } else {
            proof {
                assert(100 * 0nat / (self.size as nat) == 0) by (nonlinear_arith)
                    requires self.size > 0;
            }
            let ev = FileState::InProgress { percent: 0 };
            proof { self.log@ = seq![ev@]; }
            Some(ev)
        }
    }

    /// The length of the next buffer to read, while buffers are expected:
    /// `CHUNK_SIZE` or the exact remainder of the file, whichever is smaller.
    pub fn next_read(&self) -> (r: Option<u64>)
        requires
            self.wf(),
        ensures
            r == (if self.reading() {
                Some(chunk_len_of((self.size_spec() - self.fed_spec().len()) as nat) as u64)
            } else {
                None::<u64>
            }),
    {
        if self.started && !self.stopped && !self.completed && self.tracker.done() < self.size {
            Some(next_chunk_len(self.size - self.tracker.done()))
        } else {
            None
        }
    }

    /// Folds the next buffer into the digest. A buffer of another length than
    /// the one asked for counts as a failed read and stops the pipeline.
    /// Returns a progress event when the percentage has risen.
    pub fn feed(&mut self, chunk: &[u8]) -> (r: Option<FileState>)
        requires
            old(self).wf(),
        ensures
            final(self).wf(),
            final(self).size_spec() == old(self).size_spec(),
            final(self).is_started() == old(self).is_started(),
            final(self).is_completed() == old(self).is_completed(),
            !old(self).reading() ==> r is None && final(self).fed_spec() == old(self).fed_spec()
                && final(self).log_spec() == old(self).log_spec() && final(self).is_stopped()
                == old(self).is_stopped(),
            old(self).reading() && chunk@.len() != chunk_len_of(
                (old(self).size_spec() - old(self).fed_spec().len()) as nat,
            ) ==> r is None && final(self).is_stopped() && final(self).fed_spec()
                == old(self).fed_spec() && final(self).log_spec() == old(self).log_spec(),
            old(self).reading() && chunk@.len() == chunk_len_of(
                (old(self).size_spec() - old(self).fed_spec().len()) as nat,
            ) ==> {
                let p = percent_of(final(self).fed_spec().len(), final(self).size_spec());
                &&& !final(self).is_stopped()
                &&& final(self).fed_spec() == old(self).fed_spec() + chunk@
                &&& match r {
                    Some(s) => s@ == StateView::InProgress(p) && final(self).log_spec()
                        == old(self).log_spec().push(s@),
                    None => final(self).log_spec() == old(self).log_spec(),
                }
                &&& (r is Some <==> p > percent_of(
                    old(self).fed_spec().len(),
                    old(self).size_spec(),
                ))
            },
    {
        if !(self.started && !self.stopped && !self.completed && self.tracker.done() < self.size) {
            return None;
        }
        let expected = next_chunk_len(self.size - self.tracker.done());
        if chunk.len() as u64 != expected {
            self.stopped = true;
            return None;
        }
        self.acc.update(chunk);
        proof { self.fed@ = self.fed@ + chunk@; }
        let step = self.tracker.advance(expected);
        match step {
            Some(p) => {
                let ev = FileState::InProgress { percent: p };
                let ghost old_log = self.log@;
                proof { self.log@ = self.log@.push(ev@); }
                proof {
                    assert forall|i: int| 0 <= i < self.log@.len() - 1 implies !(
                    #[trigger] self.log@[i] is Completed) by {
                        assert(self.log@[i] == old_log[i]);
                    }
                    assert forall|i: int| 0 <= i < self.log@.len() implies !(
                    #[trigger] self.log@[i] is Pending) by {
                        if i < old_log.len() {
                            assert(self.log@[i] == old_log[i]);
                        }
                    }
                }
                Some(ev)
            },
            None => None,
        }
    }

    /// Proposes the final event once every byte has been folded in; otherwise
    /// proposes nothing.
    pub fn finish(&mut self) -> (r: Option<FileState>)
        requires
            old(self).wf(),
        ensures
            final(self).wf(),
            final(self).size_spec() == old(self).size_spec(),
            final(self).fed_spec() == old(self).fed_spec(),
            final(self).is_started() == old(self).is_started(),
            final(self).is_stopped() == old(self).is_stopped(),
            ({
                let ready = old(self).is_started() && !old(self).is_stopped()
                    && !old(self).is_completed() && old(self).fed_spec().len()
                    == old(self).size_spec();
                &&& ready ==> (r matches Some(s) && s@ == completed_for(old(self).fed_spec())
                    && final(self).log_spec() == old(self).log_spec().push(s@)
                    && final(self).is_completed())
                &&& !ready ==> r is None && final(self).log_spec() == old(self).log_spec()
                    && final(self).is_completed() == old(self).is_completed()
            }),
    {
        if !(self.started && !self.stopped && !self.completed && self.tracker.done() == self.size) {
            return None;
        }
        let digest = self.acc.take_digest_hex();
        self.completed = true;
        let ev = FileState::Completed { digest };
        let ghost old_log = self.log@;
        proof { self.log@ = self.log@.push(ev@); }
        proof {
            assert forall|i: int| 0 <= i < self.log@.len() - 1 implies !(
            #[trigger] self.log@[i] is Completed) by {
                assert(self.log@[i] == old_log[i]);
            }
            assert forall|i: int| 0 <= i < self.log@.len() implies !(
            #[trigger] self.log@[i] is Pending) by {
                if i < old_log.len() {
                    assert(self.log@[i] == old_log[i]);
                }
            }
        }
        Some(ev)
    }

    /// Records that the file could not be opened, measured or read: the
    /// pipeline stops and proposes nothing more.
    pub fn read_failed(&mut self)
        requires
            old(self).wf(),
        ensures
            final(self).wf(),
            final(self).is_stopped(),
            final(self).size_spec() == old(self).size_spec(),
            final(self).fed_spec() == old(self).fed_spec(),
            final(self).log_spec() == old(self).log_spec(),
            final(self).is_started() == old(self).is_started(),
            final(self).is_completed() == old(self).is_completed(),
    {
        self.stopped = true;
    }

    /// Records what became of the last send. A consumer that has gone away
    /// stops the pipeline; a delivered or dropped event changes nothing.
    pub fn on_send(&mut self, outcome: SendOutcome)
        requires
            old(self).wf(),
        ensures
            final(self).wf(),
            final(self).is_stopped() == (old(self).is_stopped() || outcome
                == SendOutcome::Disconnected),
            final(self).size_spec() == old(self).size_spec(),
            final(self).fed_spec() == old(self).fed_spec(),
            final(self).log_spec() == old(self).log_spec(),
            final(self).is_started() == old(self).is_started(),
            final(self).is_completed() == old(self).is_completed(),
    {
        if outcome == SendOutcome::Disconnected {
            self.stopped = true;
        }
    }
}

/// Every state a pipeline passes through keeps its events in order: progress
/// never goes down and stays within `[0, 100]`, and `Completed` can only be
/// the last event. A completed pipeline's last event is `Completed` with the
/// digest of exactly the file's bytes, and one that has not completed has
/// proposed no `Completed` event.
pub proof fn lemma_events_ordered(p: &Pipeline)
    requires
        p.wf(),
    ensures
        log_ordered(p.log_spec()),
        p.is_completed() ==> p.fed_spec().len() == p.size_spec() && p.log_spec().last()
            == completed_for(p.fed_spec()),
        !p.is_completed() ==> forall|i: int|
            0 <= i < p.log_spec().len() ==> !(#[trigger] p.log_spec()[i] is Completed),
{
}

/// The outcome of the `k`-th send under a scripted consumer: sends past the
/// end of the script are delivered.
pub open spec fn outcome_at(outcomes: Seq<SendOutcome>, k: int) -> SendOutcome {
    if 0 <= k < outcomes.len() {
        outcomes[k]
    } else {
        SendOutcome::Delivered
    }
}

/// Some send among the first `n` found the consumer gone.
pub open spec fn disconnected_within(outcomes: Seq<SendOutcome>, n: int) -> bool {
    exists|k: int| 0 <= k < n && outcome_at(outcomes, k) == SendOutcome::Disconnected
}

fn outcome_of(outcomes: &[SendOutcome], k: usize) -> (r: SendOutcome)
    ensures
        r == outcome_at(outcomes@, k as int),
{
    if k < outcomes.len() {
        outcomes[k]
    } else {
        SendOutcome::Delivered
    }
}

/// Runs the whole pipeline over a file whose content is already in memory,
/// sending every proposed event to a consumer that answers the `k`-th send
/// with `outcomes[k]` (and accepts every send past the end). Returns the
/// events proposed, in order.
///
/// The events are ordered as every pipeline keeps them. While the consumer
/// stays, the last event is `Completed` with the digest of all of `data`. The
/// send that first finds the consumer gone is the last one made. An empty
/// file yields `Completed` at once, with no progress event.
pub fn run_in_memory(data: &[u8], outcomes: &[SendOutcome]) -> (r: Vec<FileState>)
    ensures
        r@.len() > 0,
        log_ordered(r@.map_values(|e: FileState| e@)),
        !disconnected_within(outcomes@, r@.len() as int) ==> r@.last()@ == completed_for(data@),
        disconnected_within(outcomes@, r@.len() as int) ==> outcome_at(
            outcomes@,
            r@.len() - 1,
        ) == SendOutcome::Disconnected && !disconnected_within(outcomes@, r@.len() - 1),
        data@.len() == 0 ==> r@.len() == 1 && r@[0]@ == completed_for(data@),
{
    let total: usize = data.len();
    let mut p = Pipeline::new(total as u64);
    let mut out: Vec<FileState> = Vec::new();
    let first = p.start();
    let ev = first.unwrap();
    out.push(ev);
    let o = outcome_of(outcomes, 0);
    p.on_send(o);
    proof {
        assert(out@.map_values(|e: FileState| e@) =~= p.log_spec());
        if o == SendOutcome::Disconnected {
            assert(disconnected_within(outcomes@, 1));
        } else {
            assert(!disconnected_within(outcomes@, 1));
        }
        assert(!disconnected_within(outcomes@, 0));
    }
    let mut pos: usize = 0;
    let mut more = p.next_read().is_some();
    while more
        invariant
            more == p.reading(),
            p.wf(),
            p.is_started(),
            p.size_spec() == data@.len(),
            pos == p.fed_spec().len(),
            pos <= data@.len() == total,
            data@.len() == 0 ==> p.is_completed(),
            p.fed_spec() == data@.take(pos as int),
            out@.len() > 0,
            out@.map_values(|e: FileState| e@) == p.log_spec(),
            p.is_stopped() == disconnected_within(outcomes@, out@.len() as int),
            p.is_stopped() ==> outcome_at(outcomes@, out@.len() - 1) == SendOutcome::Disconnected
                && !disconnected_within(outcomes@, out@.len() - 1),
            data@.len() == 0 ==> out@.len() == 1,
        decreases data@.len() - pos,
    {
        let n64 = p.next_read().unwrap();
        assert(n64 <= data@.len() - pos);
        let n = n64 as usize;
        assert(pos + n <= data@.len());
        let chunk = vstd::slice::slice_subrange(data, pos, pos + n);
        let ghost before = p.fed_spec();
        let step = p.feed(chunk);
        proof {
            assert(data@.take(pos + n) =~= before + chunk@);
        }
        pos = pos + n;
        match step {
            Some(ev) => {
                let len0: usize = out.len();
                let ghost old_out = out@;
                out.push(ev);
                let o = outcome_of(outcomes, len0);
                p.on_send(o);
                proof {
                    assert(out@.map_values(|e: FileState| e@) =~= old_out.map_values(
                        |e: FileState| e@,
                    ).push(out@.last()@));
                    if o == SendOutcome::Disconnected {
                        assert(disconnected_within(outcomes@, out@.len() as int));
                    } else {
                        assert(!disconnected_within(outcomes@, out@.len() as int)) by {
                            assert forall|k: int| 0 <= k < out@.len() implies outcome_at(
                                outcomes@,
                                k,
                            ) != SendOutcome::Disconnected by {
                                if k < len0 {
                                    assert(!disconnected_within(outcomes@, len0 as int));
                                }
                            }
                        }
                    }
                }
            },
            None => {},
        }
        more = p.next_read().is_some();
    }
    if let Some(ev) = p.finish() {
        let len0: usize = out.len();
        let ghost old_out = out@;
        out.push(ev);
        let o = outcome_of(outcomes, len0);
        p.on_send(o);
        proof {
            assert(data@.take(data@.len() as int) =~= data@);
            assert(out@.map_values(|e: FileState| e@) =~= old_out.map_values(|e: FileState| e@).push(
                out@.last()@,
            ));
            if o == SendOutcome::Disconnected {
                assert(disconnected_within(outcomes@, out@.len() as int));
            } else {
                assert(!disconnected_within(outcomes@, out@.len() as int)) by {
                    assert forall|k: int| 0 <= k < out@.len() implies outcome_at(outcomes@, k)
                        != SendOutcome::Disconnected by {
                        if k < len0 {
                            assert(!disconnected_within(outcomes@, len0 as int));
                        }
                    }
                }
            }
        }
    }
    proof {
        lemma_events_ordered(&p);
        if !p.is_stopped() {
            assert(p.is_completed());
            assert(data@.take(data@.len() as int) =~= data@);
            assert(p.fed_spec() =~= data@);
        }
        assert(out@.last()@ == out@.map_values(|e: FileState| e@).last());
        assert(out@[0]@ == out@.map_values(|e: FileState| e@)[0]);
        if data@.len() == 0 {
            assert(data@ =~= Seq::<u8>::empty());
            assert(p.fed_spec() =~= data@);
            assert(out@.map_values(|e: FileState| e@).last() == out@.map_values(|e: FileState| e@)[0]);
        }
    }
    out
}

} // verus!
