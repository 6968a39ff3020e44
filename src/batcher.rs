use vstd::prelude::*;
use crate::text::{base64_of, base64_text, bytes_view, lossy_text, split, split_bytes, text_of};

verus! {

/// Capacity of the rolling tail of raw output kept for the exit diagnostic.
pub const TAIL_CAP: usize = 8192;

/// Most lines that the exit diagnostic carries.
pub const MAX_LINES: usize = 50;

/// A batch of this size or more is flushed at once.
pub const BATCH_MAX: usize = 65536;

/// A batch under this size counts as an interactive prompt.
pub const SMALL_BATCH: usize = 1024;

/// Time since the previous flush, in microseconds, after which a batch is flushed.
pub const FLUSH_INTERVAL_US: u64 = 8000;

/// Time since the previous flush, in microseconds, after which a small batch is flushed.
pub const SMALL_FLUSH_US: u64 = 2000;

/// A message of a session's output stream.
#[derive(Debug, Clone, PartialEq, Eq)]
pub enum PtyOutput {
    /// One flushed batch, base64-encoded.
    Data(String),
    /// The final message: how the process ended and the last lines it wrote.
    Exit { exit_code: Option<u32>, signal: Option<String>, last_output: Vec<String> },
}

/// Which kind of message was sent.
#[derive(Debug, Clone, Copy, PartialEq, Eq, Structural)]
pub enum MessageKind {
    Data,
    Exit,
}

/// Where the batcher stands in a session's life.
#[derive(Debug, Clone, Copy, PartialEq, Eq, Structural)]
pub enum Phase {
    /// Output is still being read.
    Reading,
    /// The stream ended and was drained; the process's exit status is awaited.
    WaitingExit,
    /// The exit diagnostic was sent: nothing follows.
    Exited,
}

pub open spec fn kind_of(m: PtyOutput) -> MessageKind {
    match m {
        PtyOutput::Data(_) => MessageKind::Data,
        PtyOutput::Exit { .. } => MessageKind::Exit,
    }
}

/// The last `n` elements of `s`, or all of it when shorter.
pub open spec fn keep_last<A>(s: Seq<A>, n: nat) -> Seq<A> {
    if s.len() > n {
        s.skip(s.len() - n)
    } else {
        s
    }
}

/// Whether a batch of `len` bytes is flushed `since_us` microseconds after the
/// previous flush.
pub open spec fn flush_due(len: nat, since_us: u64) -> bool {
    len >= BATCH_MAX || since_us >= FLUSH_INTERVAL_US || (len < SMALL_BATCH && since_us
        >= SMALL_FLUSH_US)
}

/// `l` without its trailing carriage returns.
pub open spec fn trim_crs(l: Seq<u8>) -> Seq<u8>
    decreases l.len(),
{
    if l.len() > 0 && l.last() == 13u8 {
        trim_crs(l.drop_last())
    } else {
        l
    }
}

/// The non-empty lines among `ls`, carriage returns trimmed, in order.
pub open spec fn kept_lines(ls: Seq<Seq<u8>>) -> Seq<Seq<u8>>
    decreases ls.len(),
{
    if ls.len() == 0 {
        Seq::empty()
    } else {
        let r = kept_lines(ls.drop_last());
        let l = trim_crs(ls.last());
        if l.len() == 0 {
            r
        } else {
            r.push(l)
        }
    }
}

/// The lines of the exit diagnostic for a tail of raw output: its non-empty lines,
/// trailing carriage returns removed, the last `MAX_LINES` of them, in order.
pub open spec fn exit_lines(tail: Seq<u8>) -> Seq<Seq<u8>> {
    keep_last(kept_lines(split(tail, 10u8)), MAX_LINES as nat)
}

/// The text of each byte sequence.
pub open spec fn texts(ls: Seq<Seq<u8>>) -> Seq<Seq<char>> {
    ls.map_values(|l: Seq<u8>| lossy_text(l))
}

pub open spec fn string_views(v: Seq<String>) -> Seq<Seq<char>> {
    v.map_values(|l: String| l@)
}

/// Every message is data, but for one exit message at the end once the phase is `Exited`.
pub open spec fn log_shape(log: Seq<MessageKind>, phase: Phase) -> bool {
    if phase == Phase::Exited {
        log.len() >= 1 && log.last() == MessageKind::Exit && forall|i: int|
            0 <= i < log.len() - 1 ==> #[trigger] log[i] == MessageKind::Data
    } else {
        forall|i: int| 0 <= i < log.len() ==> #[trigger] log[i] == MessageKind::Data
    }
}

/// Turns one session's raw output into latency-bounded batches and, at the end, one
/// exit diagnostic.
pub struct OutputBatcher {
    batch: Vec<u8>,
    tail: Vec<u8>,
    phase: Phase,
    /// All raw output read so far.
    raw: Ghost<Seq<u8>>,
    /// The kinds of the messages sent so far, in order.
    log: Ghost<Seq<MessageKind>>,
}

impl OutputBatcher {
    pub closed spec fn well_formed(&self) -> bool {
        &&& self.batch@.len() < BATCH_MAX
        &&& self.tail@ == keep_last(self.raw@, TAIL_CAP as nat)
        &&& log_shape(self.log@, self.phase)
        &&& (self.phase != Phase::Reading ==> self.batch@.len() == 0)
    }

    /// All raw output read so far.
    pub closed spec fn raw_view(&self) -> Seq<u8> {
        self.raw@
    }

    /// The kinds of the messages sent so far, in order.
    pub closed spec fn log_view(&self) -> Seq<MessageKind> {
        self.log@
    }

    pub closed spec fn pending(&self) -> Seq<u8> {
        self.batch@
    }

    pub closed spec fn tail_view(&self) -> Seq<u8> {
        self.tail@
    }

    pub closed spec fn phase_view(&self) -> Phase {
        self.phase
    }

    /// A batcher that has read nothing and sent nothing.
    pub fn new() -> (r: OutputBatcher)
        ensures
            r.well_formed(),
            r.phase_view() == Phase::Reading,
            r.pending().len() == 0,
            r.raw_view().len() == 0,
            r.log_view().len() == 0,
    {
        OutputBatcher {
            batch: Vec::new(),
            tail: Vec::new(),
            phase: Phase::Reading,
            raw: Ghost(Seq::empty()),
            log: Ghost(Seq::empty()),
        }
    }

    /// The current phase.
    pub fn phase(&self) -> (r: Phase)
        ensures
            r == self.phase_view(),
    {
        self.phase
    }

    /// Takes one chunk of raw output read `since_flush_us` microseconds after the
    /// previous flush. Appends it to the batch and to the tail; when the flush policy
    /// holds, returns the batch as one data message and empties it.
    pub fn push_chunk(&mut self, chunk: &[u8], since_flush_us: u64) -> (r: Option<PtyOutput>)
        requires
            old(self).well_formed(),
            old(self).phase_view() == Phase::Reading,
            chunk@.len() <= BATCH_MAX,
        ensures
            final(self).well_formed(),
            final(self).phase_view() == Phase::Reading,
            final(self).raw_view() == old(self).raw_view() + chunk@,
            r is Some <==> flush_due((old(self).pending() + chunk@).len(), since_flush_us),
            since_flush_us >= FLUSH_INTERVAL_US ==> r is Some && final(self).pending().len() == 0,
            r is Some ==> r == Some(PtyOutput::Data(r->0->Data_0)) && r->0->Data_0@
                == base64_text(old(self).pending() + chunk@) && final(self).pending().len() == 0
                && final(self).log_view() == old(self).log_view().push(MessageKind::Data),
            r is None ==> final(self).pending() == old(self).pending() + chunk@,
            r is None ==> final(self).log_view() == old(self).log_view(),
    {
        let ghost raw1 = self.raw@ + chunk@;
        let total = self.tail.len() + chunk.len();
        let start: usize = if total > TAIL_CAP {
            total - TAIL_CAP
        } else {
            0
        };
        let ghost comb = self.tail@ + chunk@;
        let mut nt: Vec<u8> = Vec::new();
        let mut i: usize = start;
        while i < total
            invariant
                start <= i <= total,
                total == comb.len(),
                comb == self.tail@ + chunk@,
                nt@ == comb.subrange(start as int, i as int),
            decreases total - i,
        {
            let b = if i < self.tail.len() {
                self.tail[i]
            } else {
                chunk[i - self.tail.len()]
            };
            nt.push(b);
            i = i + 1;
            assert(nt@ =~= comb.subrange(start as int, i as int));
        }
        proof {
            lemma_keep_last_append(self.raw@, chunk@, TAIL_CAP as nat);
            assert(nt@ =~= keep_last(comb, TAIL_CAP as nat));
        }
        self.tail = nt;
        self.raw = Ghost(raw1);
        let mut nb = crate::text::copy_bytes(self.batch.as_slice());
        let ghost before = self.batch@;
        let mut k: usize = 0;
        while k < chunk.len()
            invariant
                k <= chunk@.len(),
                nb@ == before + chunk@.take(k as int),
            decreases chunk@.len() - k,
        {
            nb.push(chunk[k]);
            k = k + 1;
            assert(nb@ =~= before + chunk@.take(k as int));
        }
        assert(chunk@.take(k as int) =~= chunk@);
        self.batch = nb;
        let len = self.batch.len();
        if len >= BATCH_MAX || since_flush_us >= FLUSH_INTERVAL_US || (len < SMALL_BATCH
            && since_flush_us >= SMALL_FLUSH_US) {
            let encoded = base64_of(self.batch.as_slice());
            self.batch = Vec::new();
            self.log = Ghost(self.log@.push(MessageKind::Data));
            Some(PtyOutput::Data(encoded))
        } else {
            None
        }
    }

    /// The stream ended: returns the remaining batch as one data message, if any is
    /// left, and waits for the exit status from then on.
    pub fn end_of_stream(&mut self) -> (r: Option<PtyOutput>)
        requires
            old(self).well_formed(),
            old(self).phase_view() == Phase::Reading,
        ensures
            final(self).well_formed(),
            final(self).phase_view() == Phase::WaitingExit,
            final(self).raw_view() == old(self).raw_view(),
            final(self).tail_view() == old(self).tail_view(),
            r is Some <==> old(self).pending().len() > 0,
            r is Some ==> r == Some(PtyOutput::Data(r->0->Data_0)) && r->0->Data_0@
                == base64_text(old(self).pending()) && final(self).log_view() == old(self).log_view().push(
                MessageKind::Data,
            ),
            r is None ==> final(self).log_view() == old(self).log_view(),
    {
        self.phase = Phase::WaitingExit;
        if self.batch.len() > 0 {
            let encoded = base64_of(self.batch.as_slice());
            self.batch = Vec::new();
            self.log = Ghost(self.log@.push(MessageKind::Data));
            Some(PtyOutput::Data(encoded))
        } else {
            None
        }
    }

    /// The process ended: returns the exit diagnostic, the last message of the session.
    pub fn exit(&mut self, exit_code: Option<u32>, signal: Option<String>) -> (r: PtyOutput)
        requires
            old(self).well_formed(),
            old(self).phase_view() == Phase::WaitingExit,
        ensures
            final(self).well_formed(),
            final(self).phase_view() == Phase::Exited,
            final(self).raw_view() == old(self).raw_view(),
            final(self).log_view() == old(self).log_view().push(MessageKind::Exit),
            r matches PtyOutput::Exit { exit_code: c, signal: s, last_output: lines } && c
                == exit_code && s == signal && string_views(lines@)
                == texts(exit_lines(old(self).tail_view())),
            r matches PtyOutput::Exit { last_output: lines, .. } && string_views(lines@) == texts(
                exit_lines(keep_last(old(self).raw_view(), TAIL_CAP as nat)),
            ),
    {
        let last_output = last_lines(self.tail.as_slice());
        self.phase = Phase::Exited;
        self.log = Ghost(self.log@.push(MessageKind::Exit));
        PtyOutput::Exit { exit_code, signal, last_output }
    }
}

/// Every session's output is data messages, then exactly one exit message once the
/// process has ended, and nothing after it: each step of the batcher keeps that shape,
/// and none is taken once the phase is `Exited`.
pub proof fn lemma_exit_is_last(b: OutputBatcher)
    requires
        b.well_formed(),
    ensures
        log_shape(b.log_view(), b.phase_view()),
        b.phase_view() == Phase::Exited ==> b.log_view().last() == MessageKind::Exit,
        forall|i: int| 0 <= i < b.log_view().len() && #[trigger] b.log_view()[i] == MessageKind::Exit
            ==> i == b.log_view().len() - 1,
{
}

/// The exit diagnostic reflects the last `TAIL_CAP` bytes of all output read.
pub proof fn lemma_tail_is_suffix(b: OutputBatcher)
    requires
        b.well_formed(),
    ensures
        b.tail_view() == keep_last(b.raw_view(), TAIL_CAP as nat),
{
}

proof fn lemma_keep_last_append(r: Seq<u8>, c: Seq<u8>, n: nat)
    ensures
        keep_last(keep_last(r, n) + c, n) =~= keep_last(r + c, n),
{
    let k = keep_last(r, n);
    if r.len() > n {
        assert(r + c =~= r.take(r.len() - n) + (k + c));
    }
    let a = k + c;
    let b = r + c;
    assert(b.len() >= a.len());
    assert forall|i: int| 0 <= i < a.len() implies a[i] == b[i + (b.len() - a.len())] by {
        if i < k.len() {
        } else {
        }
    }
}

/// The exit-diagnostic lines of a tail of raw output, as text.
pub fn last_lines(tail: &[u8]) -> (r: Vec<String>)
    ensures
        string_views(r@) == texts(exit_lines(tail@)),
{
    let pieces = split_bytes(tail, 10u8);
    let mut kept: Vec<Vec<u8>> = Vec::new();
    let mut k: usize = 0;
    assert(bytes_view(pieces@).take(0) =~= Seq::<Seq<u8>>::empty());
    assert(bytes_view(kept@) =~= Seq::<Seq<u8>>::empty());
    while k < pieces.len()
        invariant
            k <= pieces@.len(),
            bytes_view(kept@) == kept_lines(bytes_view(pieces@).take(k as int)),
        decreases pieces@.len() - k,
    {
        let ghost t = bytes_view(pieces@).take(k + 1);
        assert(t.drop_last() =~= bytes_view(pieces@).take(k as int));
        assert(t.last() == pieces@[k as int]@);
        let mut l = crate::text::copy_bytes(pieces[k].as_slice());
        while l.len() > 0 && l[l.len() - 1] == 13u8
            invariant
                trim_crs(l@) == trim_crs(pieces@[k as int]@),
            decreases l@.len(),
        {
            l.pop();
        }
        if l.len() > 0 {
            let ghost before = kept@;
            kept.push(l);
            assert(bytes_view(kept@) =~= bytes_view(before).push(kept@.last()@));
        }
        k = k + 1;
    }
    assert(bytes_view(pieces@).take(k as int) =~= bytes_view(pieces@));
    let n = kept.len();
    let start: usize = if n > MAX_LINES {
        n - MAX_LINES
    } else {
        0
    };
    let ghost kl = bytes_view(kept@);
    let mut out: Vec<String> = Vec::new();
    let mut i: usize = start;
    while i < n
        invariant
            start <= i <= n,
            n == kept@.len(),
            kl == bytes_view(kept@),
            string_views(out@) == texts(kl.subrange(start as int, i as int)),
        decreases n - i,
    {
        let ghost before = out@;
        let t = text_of(kept[i].as_slice());
        assert(kl.subrange(start as int, i + 1) =~= kl.subrange(start as int, i as int).push(kl[i as int]));
        assert(texts(kl.subrange(start as int, i + 1)) =~= texts(kl.subrange(start as int, i as int)).push(lossy_text(kl[i as int])));
        out.push(t);
        assert(string_views(out@) =~= string_views(before).push(t@));
        i = i + 1;
    }
    assert(kl.subrange(start as int, n as int) =~= keep_last(kl, MAX_LINES as nat));
    out
}

} // verus!
