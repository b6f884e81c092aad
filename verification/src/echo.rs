//! What to do after one read, and how the bytes read are written back in full.
//!
//! Whatever one read call returns is written back verbatim before the next read
//! on that connection. A write may take only part of what is offered, so the
//! write-back is a small state machine: it offers the rest until nothing is
//! left or the transport fails.

use vstd::prelude::*;
use vstd::slice::slice_subrange;

verus! {

/// The size of the buffer that one read fills. The value is a tuning choice, no
/// part of the protocol: a read returns at most this many bytes, and a longer
/// message is echoed in several rounds.
pub const SCRATCH_SIZE: usize = 160;

/// How one non-blocking read or write call ended.
#[derive(Clone, Copy, Debug, PartialEq, Eq, Structural)]
pub enum IoOutcome {
    /// The call succeeded and moved this many bytes.
    Transferred(usize),
    /// The call could not proceed without blocking.
    WouldBlock,
    /// The call failed for any other reason.
    Failed,
}

/// What the event loop does next for a write-back.
#[derive(Clone, Copy, Debug, PartialEq, Eq, Structural)]
pub enum WriteStep {
    /// Write the bytes of the scratch buffer from `from` up to `to`.
    Write { from: usize, to: usize },
    /// Everything was written back: the connection waits for its next event.
    Delivered,
    /// The transport failed: tear the connection down.
    Failed,
}

/// The progress of one write-back as a mathematical value.
pub struct EchoState {
    /// The number of bytes to write back.
    pub len: nat,
    /// How many of them the transport has taken.
    pub sent: nat,
    /// Whether the transport failed.
    pub failed: bool,
}

impl EchoState {
    /// The write-back of `len` bytes before the first write.
    pub open spec fn start(len: nat) -> EchoState {
        EchoState { len, sent: 0, failed: false }
    }

    /// No more is counted as sent than there is to send.
    pub open spec fn wf(self) -> bool {
        self.sent <= self.len
    }

    /// Bytes are left and the transport has not failed: another write is due.
    pub open spec fn writing(self) -> bool {
        !self.failed && self.sent < self.len
    }

    /// Every byte was taken.
    pub open spec fn complete(self) -> bool {
        !self.failed && self.sent == self.len
    }

    /// The number of offered bytes that a write with this outcome took.
    pub open spec fn taken(self, outcome: IoOutcome) -> nat {
        match outcome {
            IoOutcome::Transferred(n) => if self.writing() && n <= self.len - self.sent {
                n as nat
            } else {
                0
            },
            _ => 0,
        }
    }

    /// The state after a write of the bytes from `sent` on ended with `outcome`.
    /// A write that took nothing or would block is tried again; one that failed,
    /// or claims more bytes than it was offered, ends the write-back.
    pub open spec fn step(self, outcome: IoOutcome) -> EchoState {
        if !self.writing() {
            self
        } else {
            match outcome {
                IoOutcome::Transferred(n) => if n <= self.len - self.sent {
                    EchoState { sent: self.sent + n as nat, ..self }
                } else {
                    EchoState { failed: true, ..self }
                },
                IoOutcome::WouldBlock => self,
                IoOutcome::Failed => EchoState { failed: true, ..self },
            }
        }
    }

    /// The state after a sequence of writes, each offered what the ones before
    /// it left.
    pub open spec fn run(self, outcomes: Seq<IoOutcome>) -> EchoState
        decreases outcomes.len(),
    {
        if outcomes.len() == 0 {
            self
        } else {
            self.run(outcomes.drop_last()).step(outcomes.last())
        }
    }

    /// The bytes of `payload` that the transport took over a sequence of
    /// writes, in the order in which it took them.
    pub open spec fn written(self, payload: Seq<u8>, outcomes: Seq<IoOutcome>) -> Seq<u8>
        decreases outcomes.len(),
    {
        if outcomes.len() == 0 {
            Seq::empty()
        } else {
            let before = self.run(outcomes.drop_last());
            self.written(payload, outcomes.drop_last()) + payload.subrange(
                before.sent as int,
                (before.sent + before.taken(outcomes.last())) as int,
            )
        }
    }

    /// Every write of the sequence took at least one of the bytes offered to it,
    /// as long as any were left.
    pub open spec fn steady(self, outcomes: Seq<IoOutcome>) -> bool
        decreases outcomes.len(),
    {
        if outcomes.len() == 0 {
            true
        } else {
            let before = self.run(outcomes.drop_last());
            self.steady(outcomes.drop_last()) && (before.writing() ==> before.taken(
                outcomes.last(),
            ) >= 1)
        }
    }
}

/// The write-back of the bytes of one read.
#[derive(Clone, Copy, Debug, PartialEq, Eq)]
pub struct Echo {
    len: usize,
    sent: usize,
    failed: bool,
}

impl View for Echo {
    type V = EchoState;

    closed spec fn view(&self) -> EchoState {
        EchoState { len: self.len as nat, sent: self.sent as nat, failed: self.failed }
    }
}

impl Echo {
    #[verifier::type_invariant]
    spec fn inv(self) -> bool {
        self.sent <= self.len
    }

    /// The write-back of `len` bytes, none of them sent yet.
    pub fn start(len: usize) -> (echo: Echo)
        ensures
            echo@ == EchoState::start(len as nat),
    {
        Echo { len, sent: 0, failed: false }
    }

    /// The number of bytes that the transport has taken so far.
    pub fn sent(&self) -> (n: usize)
        ensures
            n == self@.sent,
            n <= self@.len,
    {
        proof {
            use_type_invariant(self);
        }
        self.sent
    }

    /// Whether the transport failed.
    pub fn is_failed(&self) -> (yes: bool)
        ensures
            yes == self@.failed,
    {
        self.failed
    }

    /// The number of bytes to write back.
    pub fn len(&self) -> (n: usize)
        ensures
            n == self@.len,
    {
        self.len
    }

    /// What to do next: write the rest, or stop because all is written or the
    /// transport failed.
    pub fn next_step(&self) -> (step: WriteStep)
        ensures
            match step {
                WriteStep::Write { from, to } => self@.writing() && from == self@.sent && to
                    == self@.len,
                WriteStep::Delivered => self@.complete(),
                WriteStep::Failed => self@.failed,
            },
    {
        proof {
            use_type_invariant(self);
        }
        if self.failed {
            WriteStep::Failed
        } else if self.sent < self.len {
            WriteStep::Write { from: self.sent, to: self.len }
        } else {
            WriteStep::Delivered
        }
    }

    /// The bytes that the next write offers: those of `buf`, the buffer that
    /// the read filled, from `sent` up to `len`. Of a buffer shorter than `len`
    /// it is what the buffer has of them.
    pub fn unsent<'a>(&self, buf: &'a [u8]) -> (rest: &'a [u8])
        ensures
            self@.len <= buf@.len() ==> rest@ == buf@.subrange(
                self@.sent as int,
                self@.len as int,
            ),
            self@.len > buf@.len() ==> rest@ == buf@.subrange(
                if self@.sent < buf@.len() {
                    self@.sent as int
                } else {
                    buf@.len() as int
                },
                buf@.len() as int,
            ),
    {
        proof {
            use_type_invariant(self);
        }
        let to: usize = if self.len <= buf.len() {
            self.len
        } else {
            buf.len()
        };
        let from: usize = if self.sent <= to {
            self.sent
        } else {
            to
        };
        slice_subrange(buf, from, to)
    }

    /// Takes in how the write of the bytes from `sent` on ended.
    pub fn after_write(self, outcome: IoOutcome) -> (next: Echo)
        ensures
            next@ == self@.step(outcome),
    {
        proof {
            use_type_invariant(self);
        }
        if self.failed || self.sent >= self.len {
            return self;
        }
        match outcome {
            IoOutcome::Transferred(n) => {
                if n <= self.len - self.sent {
                    Echo { len: self.len, sent: self.sent + n, failed: false }
                } else {
                    Echo { len: self.len, sent: self.sent, failed: true }
                }
            },
            IoOutcome::WouldBlock => self,
            IoOutcome::Failed => Echo { len: self.len, sent: self.sent, failed: true },
        }
    }
}

/// What the event loop does for a connection after one read.
#[derive(Clone, Copy, Debug, PartialEq, Eq)]
pub enum ReadStep {
    /// Bytes were read: write them back.
    Echo(Echo),
    /// Nothing was there to read: wait for the next readiness event.
    Wait,
    /// The peer shut the stream down: tear the connection down, write nothing.
    Closed,
    /// The read failed: tear the connection down.
    Failed,
}

/// Decides what follows one read into the scratch buffer. A read of no bytes
/// is the end of the stream; one that would block is neither that nor an error.
/// A count beyond the buffer's size cannot come from a read into it, and is
/// taken as a failure.
pub fn after_read(outcome: IoOutcome) -> (step: ReadStep)
    ensures
        match outcome {
            IoOutcome::Transferred(n) => if n == 0 {
                step is Closed
            } else if n <= SCRATCH_SIZE {
                step matches ReadStep::Echo(echo) && echo@ == EchoState::start(n as nat)
            } else {
                step is Failed
            },
            IoOutcome::WouldBlock => step is Wait,
            IoOutcome::Failed => step is Failed,
        },
{
    match outcome {
        IoOutcome::Transferred(n) => {
            if n == 0 {
                ReadStep::Closed
            } else if n <= SCRATCH_SIZE {
                ReadStep::Echo(Echo::start(n))
            } else {
                ReadStep::Failed
            }
        },
        IoOutcome::WouldBlock => ReadStep::Wait,
        IoOutcome::Failed => ReadStep::Failed,
    }
}

/// What a write-back came to over a transport whose answers were given.
#[derive(Debug, PartialEq, Eq)]
pub struct Transmission {
    /// Where the write-back stands after the last write.
    pub end: Echo,
    /// The bytes that the transport took, in the order in which it took them.
    pub delivered: Vec<u8>,
}

/// Runs the write-back of `payload` over a transport that answers the writes
/// as `outcomes` says: the first outcome is that of the write of the whole
/// payload, each later one that of the write of what was left. Outcomes after
/// the one that ends the write-back are not looked at.
///
/// Whatever the outcomes, the transport gets the bytes of the payload in
/// order, none twice and none left out, up to where the write-back stands; when
/// it is complete, the transport has the whole payload.
pub fn transmit_loop(payload: &[u8], outcomes: &Vec<IoOutcome>) -> (done: Transmission)
    ensures
        done.end@ == EchoState::start(payload@.len()).run(outcomes@),
        done.delivered@ == EchoState::start(payload@.len()).written(payload@, outcomes@),
        done.delivered@ == payload@.subrange(0, done.end@.sent as int),
        done.end@.complete() ==> done.delivered@ == payload@,
{
    let size: usize = payload.len();
    let ghost start = EchoState::start(size as nat);
    let mut echo = Echo::start(size);
    let mut delivered: Vec<u8> = Vec::new();
    let mut transmitted: usize = 0;
    let mut i: usize = 0;
    while i < outcomes.len() && transmitted < size && !echo.is_failed()
        invariant
            i <= outcomes.len(),
            size == payload@.len(),
            start == EchoState::start(size as nat),
            transmitted == echo@.sent,
            transmitted <= size,
            echo@ == start.run(outcomes@.take(i as int)),
            delivered@ == start.written(payload@, outcomes@.take(i as int)),
        decreases outcomes.len() - i,
    {
        echo = echo.after_write(outcomes[i]);
        let taken_up_to: usize = echo.sent();
        proof {
            lemma_run_wf(start, outcomes@.take(i as int));
            lemma_run_wf(start, outcomes@.take(i + 1));
            assert(outcomes@.take(i + 1).drop_last() =~= outcomes@.take(i as int));
        }
        let chunk = slice_subrange(payload, transmitted, taken_up_to);
        let ghost before = delivered@;
        delivered.extend_from_slice(chunk);
        assert(delivered@ =~= before + chunk@);
        transmitted = taken_up_to;
        i = i + 1;
    }
    proof {
        lemma_run_wf(start, outcomes@.take(i as int));
        if i < outcomes.len() {
            lemma_nothing_after_the_end(start, payload@, outcomes@, i as int);
        } else {
            assert(outcomes@.take(i as int) =~= outcomes@);
        }
        lemma_written_is_prefix(payload@, outcomes@);
    }
    Transmission { end: echo, delivered }
}

/// Once a write-back has ended, delivered or failed, further outcomes change
/// neither its state nor what the transport has.
pub proof fn lemma_nothing_after_the_end(
    start: EchoState,
    payload: Seq<u8>,
    outcomes: Seq<IoOutcome>,
    k: int,
)
    requires
        start.wf(),
        start.len <= payload.len(),
        0 <= k <= outcomes.len(),
        !start.run(outcomes.take(k)).writing(),
    ensures
        start.run(outcomes) == start.run(outcomes.take(k)),
        start.written(payload, outcomes) == start.written(payload, outcomes.take(k)),
    decreases outcomes.len(),
{
    if k == outcomes.len() {
        assert(outcomes.take(k) =~= outcomes);
    } else {
        assert(outcomes.drop_last().take(k) =~= outcomes.take(k));
        lemma_nothing_after_the_end(start, payload, outcomes.drop_last(), k);
        lemma_run_wf(start, outcomes.drop_last());
        let before = start.run(outcomes.drop_last());
        assert(payload.subrange(before.sent as int, before.sent as int) =~= Seq::<u8>::empty());
        assert(start.written(payload, outcomes.drop_last()) + Seq::<u8>::empty()
            =~= start.written(payload, outcomes.drop_last()));
    }
}

/// A run never counts more bytes as sent than there are, and never changes how
/// many there are.
pub proof fn lemma_run_wf(state: EchoState, outcomes: Seq<IoOutcome>)
    requires
        state.wf(),
    ensures
        state.run(outcomes).wf(),
        state.run(outcomes).len == state.len,
        state.run(outcomes).sent >= state.sent,
    decreases outcomes.len(),
{
    if outcomes.len() > 0 {
        lemma_run_wf(state, outcomes.drop_last());
    }
}

/// Partial writes lose and reorder nothing: whatever the writes return, the
/// bytes that the transport took are the first `sent` bytes of the payload, in
/// order, and when the write-back is complete they are the whole payload.
pub proof fn lemma_written_is_prefix(payload: Seq<u8>, outcomes: Seq<IoOutcome>)
    ensures
        ({
            let start = EchoState::start(payload.len());
            let end = start.run(outcomes);
            &&& end.sent <= payload.len()
            &&& start.written(payload, outcomes) == payload.subrange(0, end.sent as int)
            &&& end.complete() ==> start.written(payload, outcomes) == payload
        }),
    decreases outcomes.len(),
{
    let start = EchoState::start(payload.len());
    lemma_run_wf(start, outcomes);
    if outcomes.len() == 0 {
        assert(start.written(payload, outcomes) =~= payload.subrange(0, 0));
    } else {
        lemma_written_is_prefix(payload, outcomes.drop_last());
        lemma_run_wf(start, outcomes.drop_last());
        let before = start.run(outcomes.drop_last());
        let end = start.run(outcomes);
        assert(end.sent == before.sent + before.taken(outcomes.last()));
        assert(payload.subrange(0, before.sent as int) + payload.subrange(
            before.sent as int,
            end.sent as int,
        ) =~= payload.subrange(0, end.sent as int));
    }
    let end = start.run(outcomes);
    if end.complete() {
        assert(payload.subrange(0, end.sent as int) =~= payload);
    }
}

/// A payload larger than any one write takes is still written back in full:
/// when every write takes at least one byte, as many writes as the payload has
/// bytes are enough to complete it.
pub proof fn lemma_steady_writes_complete(len: nat, outcomes: Seq<IoOutcome>)
    requires
        EchoState::start(len).steady(outcomes),
    ensures
        !EchoState::start(len).run(outcomes).failed,
        EchoState::start(len).run(outcomes).complete() || EchoState::start(len).run(outcomes).sent
            >= outcomes.len(),
        outcomes.len() >= len ==> EchoState::start(len).run(outcomes).complete(),
    decreases outcomes.len(),
{
    let start = EchoState::start(len);
    lemma_run_wf(start, outcomes);
    if outcomes.len() > 0 {
        lemma_steady_writes_complete(len, outcomes.drop_last());
        lemma_run_wf(start, outcomes.drop_last());
    }
}

} // verus!
