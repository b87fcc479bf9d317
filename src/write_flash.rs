//! The write sequence: optional bulk erase of each bank, then per chunk a
//! skip check, an erase-and-write, the payload in flow-controlled pieces and
//! an optional final verify. The decisions form a state machine whose steps
//! a driver carries out over a `RamCommand` port.

use vstd::prelude::*;
use crate::command::{Command, ProtocolError, RamCommand, Response};
use crate::image::{FlashChunk, ImageError, fits, model};
use crate::WriteFlashParams;

verus! {

/// Why a write session stopped.
#[derive(Clone, Copy, Debug, PartialEq, Eq, Structural)]
pub enum FlashError {
    /// The input files could not be turned into chunks.
    Image(ImageError),
    /// The stub did not answer, or the transport failed.
    Protocol(ProtocolError),
    /// The stub refused the bulk erase of the bank holding `address`.
    EraseFailed { address: u32 },
    /// The stub refused a write of the chunk at `address`.
    WriteFailed { address: u32 },
    /// The chunk at `address` was written but does not verify.
    VerifyMismatch { address: u32 },
    /// No write parameters were given.
    NoParams,
}

/// What the sequencer needs to know of a chunk.
#[derive(Clone, Copy, Debug, PartialEq, Eq, Structural)]
pub struct ChunkHeader {
    pub address: u32,
    pub len: u32,
    pub crc32: u32,
}

/// Where the sequence stands: each phase but the last two waits for the reply
/// to the step that entered it.
#[derive(Clone, Copy, Debug, PartialEq, Eq, Structural)]
pub enum Phase {
    /// Bulk erase of the `bank`-th planned address.
    Erase { bank: usize },
    /// Verify asked whether the chunk is already in flash.
    Check { chunk: usize },
    /// Erase-and-write announced.
    Open { chunk: usize },
    /// Payload bytes `start..end` of the chunk sent.
    Stream { chunk: usize, start: usize, end: usize },
    /// Verify after writing.
    Verify { chunk: usize },
    Done,
    Failed(FlashError),
}

/// What to do next.
#[derive(Clone, Copy, Debug, PartialEq, Eq, Structural)]
pub enum Step {
    /// Send a command and hand its reply back.
    Send(Command),
    /// Send `preamble`, if any, without waiting for a reply, then the chunk's
    /// bytes `start..end`, and hand the reply back.
    Payload { chunk: usize, start: usize, end: usize, preamble: Option<Command> },
    Done,
    Failed(FlashError),
}

/// Bytes per payload piece in compatibility mode.
pub const COMPAT_PACKET: usize = 256;

/// Bytes per payload piece otherwise.
pub const PACKET: usize = 0x20000;

/// Mask that keeps the bank of an address: its top byte.
pub const BANK_MASK: u32 = 0xff00_0000;

/// The fixed facts of a session.
pub struct Config {
    pub headers: Seq<ChunkHeader>,
    pub erase: Seq<u32>,
    pub erase_all: bool,
    pub verify: bool,
    pub packet: nat,
}

/// Every chunk is non-empty and lies within the address space, and pieces
/// have a positive size.
pub open spec fn config_wf(c: Config) -> bool {
    &&& c.headers.len() <= usize::MAX
    &&& c.erase.len() <= usize::MAX
    &&& c.packet > 0
    &&& c.packet <= PACKET
    &&& forall|i: int| 0 <= i < c.headers.len() ==> (#[trigger] c.headers[i]).len > 0
        && c.headers[i].address + c.headers[i].len <= 0x1_0000_0000
}

pub open spec fn min(a: int, b: int) -> int {
    if a <= b { a } else { b }
}

/// The piece of chunk `i` that starts at `from`.
pub open spec fn piece_from(c: Config, i: int, from: int) -> Phase {
    Phase::Stream {
        chunk: i as usize,
        start: from as usize,
        end: min(from + c.packet, c.headers[i].len as int) as usize,
    }
}

/// The first phase of chunk `i`, or the end after the last chunk.
pub open spec fn enter_chunk(c: Config, i: int) -> Phase {
    if i >= c.headers.len() {
        Phase::Done
    } else if c.erase_all {
        piece_from(c, i, 0)
    } else {
        Phase::Check { chunk: i as usize }
    }
}

/// The phase after chunk `i` is fully sent.
pub open spec fn after_written(c: Config, i: int) -> Phase {
    if c.verify {
        Phase::Verify { chunk: i as usize }
    } else {
        enter_chunk(c, i + 1)
    }
}

/// The phase a session begins with.
pub open spec fn first_phase(c: Config) -> Phase {
    if c.erase_all && c.erase.len() > 0 {
        Phase::Erase { bank: 0 }
    } else {
        enter_chunk(c, 0)
    }
}

/// The phase after reply `r`.
pub open spec fn next_phase(c: Config, p: Phase, r: Response) -> Phase {
    match p {
        Phase::Erase { bank } => if r != Response::Okay {
            Phase::Failed(FlashError::EraseFailed { address: c.erase[bank as int] })
        } else if bank + 1 < c.erase.len() {
            Phase::Erase { bank: (bank + 1) as usize }
        } else {
            enter_chunk(c, 0)
        },
        Phase::Check { chunk } => if r == Response::Okay {
            enter_chunk(c, chunk + 1)
        } else {
            Phase::Open { chunk }
        },
        Phase::Open { chunk } => if r == Response::RxWait {
            piece_from(c, chunk as int, 0)
        } else {
            Phase::Failed(FlashError::WriteFailed { address: c.headers[chunk as int].address })
        },
        Phase::Stream { chunk, start, end } => {
            match r {
                Response::RxWait => if end < c.headers[chunk as int].len {
                    piece_from(c, chunk as int, end as int)
                } else {
                    after_written(c, chunk as int)
                },
                Response::Okay => after_written(c, chunk as int),
                Response::Fail => Phase::Failed(
                    FlashError::WriteFailed { address: c.headers[chunk as int].address },
                ),
            }
        },
        Phase::Verify { chunk } => if r == Response::Okay {
            enter_chunk(c, chunk + 1)
        } else {
            Phase::Failed(FlashError::VerifyMismatch { address: c.headers[chunk as int].address })
        },
        Phase::Done => Phase::Done,
        Phase::Failed(e) => Phase::Failed(e),
    }
}

/// The step that a phase calls for.
pub open spec fn step_of(c: Config, p: Phase) -> Step {
    match p {
        Phase::Erase { bank } => Step::Send(Command::EraseAll { address: c.erase[bank as int] }),
        Phase::Check { chunk } | Phase::Verify { chunk } => Step::Send(
            Command::Verify {
                address: c.headers[chunk as int].address,
                len: c.headers[chunk as int].len,
                crc: c.headers[chunk as int].crc32,
            },
        ),
        Phase::Open { chunk } => Step::Send(
            Command::WriteAndErase {
                address: c.headers[chunk as int].address,
                len: c.headers[chunk as int].len,
            },
        ),
        Phase::Stream { chunk, start, end } => Step::Payload {
            chunk,
            start,
            end,
            preamble: if c.erase_all && start == 0 {
                Some(
                    Command::Write {
                        address: c.headers[chunk as int].address,
                        len: c.headers[chunk as int].len,
                    },
                )
            } else {
                None
            },
        },
        Phase::Done => Step::Done,
        Phase::Failed(e) => Step::Failed(e),
    }
}

/// The phase after the replies `rs`, in order.
pub open spec fn replay(c: Config, p: Phase, rs: Seq<Response>) -> Phase
    decreases rs.len(),
{
    if rs.len() == 0 {
        p
    } else {
        next_phase(c, replay(c, p, rs.drop_last()), rs.last())
    }
}

/// Indices and bounds of a phase fit the configuration.
pub open spec fn phase_wf(c: Config, p: Phase) -> bool {
    match p {
        Phase::Erase { bank } => bank < c.erase.len(),
        Phase::Check { chunk } | Phase::Open { chunk } | Phase::Verify { chunk } => chunk < c.headers.len(),
        Phase::Stream { chunk, start, end } => chunk < c.headers.len() && start < end <= c.headers[chunk as int].len
            && end - start <= c.packet,
        _ => true,
    }
}

/// Work that remains from chunk `i` on.
pub open spec fn rest(c: Config, i: int) -> nat
    decreases c.headers.len() - i,
{
    if i < 0 || i >= c.headers.len() {
        0
    } else {
        (c.headers[i].len + 5 + rest(c, i + 1)) as nat
    }
}

/// Decreases with every reply until the session ends.
pub open spec fn measure(c: Config, p: Phase) -> nat {
    match p {
        Phase::Erase { bank } => (rest(c, 0) + c.erase.len() - bank) as nat,
        Phase::Check { chunk } => (rest(c, chunk + 1) + 4 + c.headers[chunk as int].len) as nat,
        Phase::Open { chunk } => (rest(c, chunk + 1) + 3 + c.headers[chunk as int].len) as nat,
        Phase::Stream { chunk, end, .. } => (rest(c, chunk + 1) + 2 + c.headers[chunk as int].len - end) as nat,
        Phase::Verify { chunk } => (rest(c, chunk + 1) + 1) as nat,
        Phase::Done => 0,
        Phase::Failed(_) => 0,
    }
}

/// The session has ended.
pub open spec fn terminal(p: Phase) -> bool {
    p is Done || p is Failed
}

proof fn lemma_enter_chunk(c: Config, i: int)
    requires
        config_wf(c),
        0 <= i,
    ensures
        phase_wf(c, enter_chunk(c, i)),
        i < c.headers.len() ==> measure(c, enter_chunk(c, i)) < rest(c, i),
{
    if i < c.headers.len() {
        let len = c.headers[i].len as int;
        assert(len > 0);
        assert(rest(c, i) == len + 5 + rest(c, i + 1));
        let e = min(c.packet as int, len);
        assert(0 < e <= len);
        assert(e as usize as int == e);
    }
}

/// Every reply keeps the phase well-formed and, before the end, lowers the measure.
pub proof fn lemma_next_phase(c: Config, p: Phase, r: Response)
    requires
        config_wf(c),
        phase_wf(c, p),
        !terminal(p),
    ensures
        phase_wf(c, next_phase(c, p, r)),
        measure(c, next_phase(c, p, r)) < measure(c, p),
{
    match p {
        Phase::Erase { bank } => {
            lemma_enter_chunk(c, 0);
            if bank + 1 < c.erase.len() {
                assert(((bank + 1) as usize) as int == bank + 1);
            }
        },
        Phase::Check { chunk } => {
            lemma_enter_chunk(c, chunk + 1);
        },
        Phase::Open { chunk } => {
            assert(c.headers[chunk as int].len > 0);
        },
        Phase::Stream { chunk, start, end } => {
            lemma_enter_chunk(c, chunk + 1);
        },
        Phase::Verify { chunk } => {
            lemma_enter_chunk(c, chunk + 1);
        },
        _ => {},
    }
}

/// A failed phase names a refused erase or write, or a failed verify.
pub open spec fn failure_named(p: Phase) -> bool {
    p matches Phase::Failed(e) ==> (e is EraseFailed || e is WriteFailed || e is VerifyMismatch)
}

proof fn lemma_failure_named(c: Config, p: Phase, rs: Seq<Response>)
    requires
        failure_named(p),
    ensures
        failure_named(replay(c, p, rs)),
    decreases rs.len(),
{
    if rs.len() > 0 {
        lemma_failure_named(c, p, rs.drop_last());
    }
}

/// Sequences the writes of a set of chunks.
pub struct FlashWriter {
    headers: Vec<ChunkHeader>,
    erase: Vec<u32>,
    erase_all: bool,
    verify: bool,
    packet: usize,
    phase: Phase,
    replies: Ghost<Seq<Response>>,
    calls: Ghost<Seq<PortCall>>,
}

/// A call made on the port: a command, or payload bytes.
pub enum PortCall {
    Command(Command),
    Data(Seq<u8>),
}

/// The port calls that carry out a step: the command; or the preamble, if
/// any, and then the chunk's bytes `start..end`.
pub open spec fn calls_of(s: Step, chunks: Seq<FlashChunk>) -> Seq<PortCall> {
    match s {
        Step::Send(cmd) => seq![PortCall::Command(cmd)],
        Step::Payload { chunk, start, end, preamble } => {
            let data = seq![PortCall::Data(chunks[chunk as int].data@.subrange(start as int, end as int))];
            match preamble {
                Some(p) => seq![PortCall::Command(p)] + data,
                None => data,
            }
        },
        _ => Seq::empty(),
    }
}

/// The port calls of a session from phase `p` whose steps were answered by
/// the replies `rs`, in order.
pub open spec fn session_calls(c: Config, p: Phase, rs: Seq<Response>, chunks: Seq<FlashChunk>) -> Seq<PortCall>
    decreases rs.len(),
{
    if rs.len() == 0 {
        Seq::empty()
    } else {
        session_calls(c, p, rs.drop_last(), chunks) + calls_of(step_of(c, replay(c, p, rs.drop_last())), chunks)
    }
}

/// What a session carried out over a port from writer `w0` to writer `w1`
/// reports, with `rs` the replies the port gave and `cs` the calls made on it
/// meanwhile: the phase is the one those replies lead to; the calls are
/// exactly the steps of those phases (in full once the session has ended; a
/// step cut short by a port error otherwise); the result is `Ok` exactly when
/// every chunk has been handled, else the session's error or the port's.
pub open spec fn session_report(
    w0: FlashWriter,
    w1: FlashWriter,
    chunks: Seq<FlashChunk>,
    r: Result<(), FlashError>,
) -> bool {
    let c = w0.config();
    let rs = w1.replies().skip(w0.replies().len() as int);
    let cs = w1.calls().skip(w0.calls().len() as int);
    let last = calls_of(step_of(c, w1.phase()), chunks);
    &&& w1.wf()
    &&& w1.config() == c
    &&& w1.replies().len() >= w0.replies().len()
    &&& w1.replies().take(w0.replies().len() as int) == w0.replies()
    &&& w1.calls().len() >= w0.calls().len()
    &&& w1.calls().take(w0.calls().len() as int) == w0.calls()
    &&& w1.phase() == replay(c, w0.phase(), rs)
    &&& terminal(w1.phase()) ==> cs == session_calls(c, w0.phase(), rs, chunks)
    &&& !terminal(w1.phase()) ==> exists|j: int|
        1 <= j <= last.len() && cs == session_calls(c, w0.phase(), rs, chunks) + last.take(j)
    &&& (r == Ok::<(), FlashError>(()) <==> w1.phase() == Phase::Done)
    &&& (w1.phase() matches Phase::Failed(e) ==> r == Err::<(), FlashError>(e))
    &&& (!terminal(w1.phase()) ==> r matches Err(FlashError::Protocol(_)))
    &&& (r matches Err(e) ==> (e is Protocol || e is EraseFailed || e is WriteFailed || e is VerifyMismatch))
}

/// The bank of an address.
pub open spec fn bank_of(a: u32) -> u32 {
    a & BANK_MASK
}

/// Some address of `p` lies in the bank of `a`.
pub open spec fn has_bank(p: Seq<u32>, a: u32) -> bool {
    exists|k: int| 0 <= k < p.len() && bank_of(#[trigger] p[k]) == bank_of(a)
}

/// The addresses to bulk-erase: of each bank that a chunk lies in, the
/// address of the first chunk in it.
pub open spec fn erase_plan(addrs: Seq<u32>) -> Seq<u32>
    decreases addrs.len(),
{
    if addrs.len() == 0 {
        Seq::empty()
    } else {
        let p = erase_plan(addrs.drop_last());
        if has_bank(p, addrs.last()) {
            p
        } else {
            p.push(addrs.last())
        }
    }
}

/// The addresses of chunks.
pub open spec fn addresses(cs: Seq<FlashChunk>) -> Seq<u32> {
    cs.map_values(|c: FlashChunk| c.address)
}

/// The chunks can be sequenced: non-empty, within the address space.
pub open spec fn chunks_wf(cs: Seq<FlashChunk>) -> bool {
    forall|i: int| 0 <= i < cs.len() ==> (#[trigger] cs[i]).data@.len() > 0 && fits(model(cs[i]))
}

/// The header of a chunk.
pub open spec fn header_of(c: FlashChunk) -> ChunkHeader {
    ChunkHeader { address: c.address, len: c.data@.len() as u32, crc32: c.crc32 }
}

fn plan_erase(chunks: &Vec<FlashChunk>) -> (r: Vec<u32>)
    ensures
        r@ == erase_plan(addresses(chunks@)),
        r@.len() <= usize::MAX,
{
    let mut plan: Vec<u32> = Vec::new();
    let mut i: usize = 0;
    while i < chunks.len()
        invariant
            i <= chunks@.len(),
            plan@ == erase_plan(addresses(chunks@).take(i as int)),
        decreases chunks@.len() - i,
    {
        let a = chunks[i].address;
        let bank = a & BANK_MASK;
        let mut k: usize = 0;
        let mut seen = false;
        while k < plan.len()
            invariant
                k <= plan@.len(),
                seen <==> exists|j: int| 0 <= j < k && bank_of(#[trigger] plan@[j]) == bank,
            decreases plan@.len() - k,
        {
            if plan[k] & BANK_MASK == bank {
                seen = true;
            }
            k = k + 1;
        }
        proof {
            let s = addresses(chunks@).take(i + 1);
            assert(s.drop_last() =~= addresses(chunks@).take(i as int));
            assert(s.last() == a);
        }
        if !seen {
            plan.push(a);
        }
        i = i + 1;
    }
    assert(addresses(chunks@).take(chunks@.len() as int) =~= addresses(chunks@));
    let n = plan.len();
    assert(plan@.len() == n);
    plan
}

impl FlashWriter {
    pub closed spec fn config(&self) -> Config {
        Config {
            headers: self.headers@,
            erase: self.erase@,
            erase_all: self.erase_all,
            verify: self.verify,
            packet: self.packet as nat,
        }
    }

    pub closed spec fn phase(&self) -> Phase {
        self.phase
    }

    /// The replies handed in so far.
    pub closed spec fn replies(&self) -> Seq<Response> {
        self.replies@
    }

    /// The port calls made so far by `run`.
    pub closed spec fn calls(&self) -> Seq<PortCall> {
        self.calls@
    }

    pub closed spec fn wf(&self) -> bool {
        &&& config_wf(self.config())
        &&& phase_wf(self.config(), self.phase)
        &&& self.phase == replay(self.config(), first_phase(self.config()), self.replies@)
    }

    /// A sequencer for `chunks`, with bulk erase and final verify as asked;
    /// compatibility mode sends the payload in small pieces.
    pub fn new(chunks: &Vec<FlashChunk>, erase_all: bool, verify: bool, compat: bool) -> (w: Self)
        requires
            chunks_wf(chunks@),
        ensures
            w.wf(),
            w.config().headers == chunks@.map_values(|c: FlashChunk| header_of(c)),
            w.config().erase == (if erase_all { erase_plan(addresses(chunks@)) } else { Seq::empty() }),
            w.config().erase_all == erase_all,
            w.config().verify == verify,
            w.config().packet == (if compat { COMPAT_PACKET } else { PACKET }),
            w.phase() == first_phase(w.config()),
            w.replies() == Seq::<Response>::empty(),
            w.calls() == Seq::<PortCall>::empty(),
    {
        let mut headers: Vec<ChunkHeader> = Vec::new();
        let mut i: usize = 0;
        while i < chunks.len()
            invariant
                i <= chunks@.len(),
                chunks_wf(chunks@),
                headers@ == chunks@.take(i as int).map_values(|c: FlashChunk| header_of(c)),
            decreases chunks@.len() - i,
        {
            let c = &chunks[i];
            assert(fits(model(chunks@[i as int])));
            headers.push(ChunkHeader { address: c.address, len: c.data.len() as u32, crc32: c.crc32 });
            i = i + 1;
            assert(headers@ =~= chunks@.take(i as int).map_values(|c: FlashChunk| header_of(c)));
        }
        assert(chunks@.take(chunks@.len() as int) =~= chunks@);
        assert(headers@.len() == chunks@.len());
        let erase = if erase_all { plan_erase(chunks) } else { Vec::new() };
        let packet = if compat { COMPAT_PACKET } else { PACKET };
        let mut w = FlashWriter {
            headers,
            erase,
            erase_all,
            verify,
            packet,
            phase: Phase::Done,
            replies: Ghost(Seq::empty()),
            calls: Ghost(Seq::empty()),
        };
        assert forall|k: int| 0 <= k < w.headers@.len() implies (#[trigger] w.headers@[k]).len > 0
            && w.headers@[k].address + w.headers@[k].len <= 0x1_0000_0000 by {
            assert(w.headers@[k] == header_of(chunks@[k]));
            assert(fits(model(chunks@[k])));
        }
        proof {
            lemma_enter_chunk(w.config(), 0);
        }
        w.phase = w.first();
        w
    }

    fn first(&self) -> (p: Phase)
        requires
            config_wf(self.config()),
        ensures
            p == first_phase(self.config()),
    {
        if self.erase_all && self.erase.len() > 0 {
            Phase::Erase { bank: 0 }
        } else {
            self.enter(0)
        }
    }

    fn piece(&self, i: usize, from: usize) -> (p: Phase)
        requires
            config_wf(self.config()),
            i < self.headers@.len(),
            from < self.headers@[i as int].len,
        ensures
            p == piece_from(self.config(), i as int, from as int),
    {
        let len = self.headers[i].len as usize;
        let end = if len - from <= self.packet { len } else { from + self.packet };
        Phase::Stream { chunk: i, start: from, end }
    }

    fn enter(&self, i: usize) -> (p: Phase)
        requires
            config_wf(self.config()),
        ensures
            p == enter_chunk(self.config(), i as int),
    {
        if i >= self.headers.len() {
            Phase::Done
        } else if self.erase_all {
            assert(self.headers@[i as int].len > 0);
            self.piece(i, 0)
        } else {
            Phase::Check { chunk: i }
        }
    }

    fn written(&self, i: usize) -> (p: Phase)
        requires
            config_wf(self.config()),
            i < self.headers@.len(),
        ensures
            p == after_written(self.config(), i as int),
    {
        if self.verify {
            Phase::Verify { chunk: i }
        } else {
            self.enter(i + 1)
        }
    }

    /// The step that the current phase calls for.
    pub fn step(&self) -> (s: Step)
        requires
            self.wf(),
        ensures
            s == step_of(self.config(), self.phase()),
    {
        match self.phase {
            Phase::Erase { bank } => Step::Send(Command::EraseAll { address: self.erase[bank] }),
            Phase::Check { chunk } | Phase::Verify { chunk } => {
                let h = self.headers[chunk];
                Step::Send(Command::Verify { address: h.address, len: h.len, crc: h.crc32 })
            },
            Phase::Open { chunk } => {
                let h = self.headers[chunk];
                Step::Send(Command::WriteAndErase { address: h.address, len: h.len })
            },
            Phase::Stream { chunk, start, end } => {
                let h = self.headers[chunk];
                let preamble = if self.erase_all && start == 0 {
                    Some(Command::Write { address: h.address, len: h.len })
                } else {
                    None
                };
                Step::Payload { chunk, start, end, preamble }
            },
            Phase::Done => Step::Done,
            Phase::Failed(e) => Step::Failed(e),
        }
    }

    /// Hands in the reply to the current step; returns the next step.
    pub fn on_reply(&mut self, r: Response) -> (s: Step)
        requires
            old(self).wf(),
            !terminal(old(self).phase()),
        ensures
            final(self).wf(),
            final(self).config() == old(self).config(),
            final(self).replies() == old(self).replies().push(r),
            final(self).calls() == old(self).calls(),
            final(self).phase() == next_phase(old(self).config(), old(self).phase(), r),
            s == step_of(final(self).config(), final(self).phase()),
    {
        proof {
            lemma_next_phase(self.config(), self.phase, r);
        }
        let next = match self.phase {
            Phase::Erase { bank } => {
                if r != Response::Okay {
                    Phase::Failed(FlashError::EraseFailed { address: self.erase[bank] })
                } else if bank + 1 < self.erase.len() {
                    Phase::Erase { bank: bank + 1 }
                } else {
                    self.enter(0)
                }
            },
            Phase::Check { chunk } => {
                if r == Response::Okay {
                    self.enter(chunk + 1)
                } else {
                    Phase::Open { chunk }
                }
            },
            Phase::Open { chunk } => {
                if r == Response::RxWait {
                    self.piece(chunk, 0)
                } else {
                    Phase::Failed(FlashError::WriteFailed { address: self.headers[chunk].address })
                }
            },
            Phase::Stream { chunk, start, end } => {
                let more = end < self.headers[chunk].len as usize;
                match r {
                    Response::RxWait => if more {
                        self.piece(chunk, end)
                    } else {
                        self.written(chunk)
                    },
                    Response::Okay => self.written(chunk),
                    Response::Fail => Phase::Failed(
                        FlashError::WriteFailed { address: self.headers[chunk].address },
                    ),
                }
            },
            Phase::Verify { chunk } => {
                if r == Response::Okay {
                    self.enter(chunk + 1)
                } else {
                    Phase::Failed(FlashError::VerifyMismatch { address: self.headers[chunk].address })
                }
            },
            Phase::Done => Phase::Done,
            Phase::Failed(e) => Phase::Failed(e),
        };
        let ghost old_replies = self.replies@;
        self.phase = next;
        self.replies = Ghost(old_replies.push(r));
        assert(old_replies.push(r).drop_last() =~= old_replies);
        self.step()
    }

    /// Carries the session out over `dev` until it ends: `Ok` when every chunk
    /// has been handled, else the first error.
    pub fn run<D: RamCommand>(&mut self, dev: &mut D, chunks: &Vec<FlashChunk>) -> (r: Result<(), FlashError>)
        requires
            old(self).wf(),
            old(self).config().headers == chunks@.map_values(|c: FlashChunk| header_of(c)),
        ensures
            session_report(*old(self), *final(self), chunks@, r),
    {
        let ghost c = self.config();
        let ghost p0 = self.phase;
        let ghost start = self.replies@;
        let ghost start_calls = self.calls@;
        let ghost mut rs: Seq<Response> = Seq::empty();
        let ghost mut cs: Seq<PortCall> = Seq::empty();
        proof {
            lemma_failure_named(self.config(), first_phase(self.config()), self.replies@);
            assert(start.take(start.len() as int) =~= start);
            assert(start_calls.take(start_calls.len() as int) =~= start_calls);
            assert(start + rs =~= start);
            assert(start_calls + cs =~= start_calls);
        }
        let mut step = self.step();
        loop
            invariant
                self.wf(),
                self.config() == c,
                c == old(self).config(),
                p0 == old(self).phase(),
                start == old(self).replies(),
                start_calls == old(self).calls(),
                self.config().headers == chunks@.map_values(|c: FlashChunk| header_of(c)),
                step == step_of(self.config(), self.phase()),
                failure_named(self.phase),
                self.replies@ == start + rs,
                self.calls@ == start_calls + cs,
                self.phase == replay(c, p0, rs),
                cs == session_calls(c, p0, rs, chunks@),
            decreases measure(self.config(), self.phase),
        {
            proof {
                assert(self.replies@.skip(start.len() as int) =~= rs);
                assert(self.replies@.take(start.len() as int) =~= start);
                assert(self.calls@.take(start_calls.len() as int) =~= start_calls);
            }
            let reply = match step {
                Step::Done => {
                    assert(self.calls@.skip(start_calls.len() as int) =~= cs);
                    return Ok(());
                },
                Step::Failed(e) => {
                    assert(self.calls@.skip(start_calls.len() as int) =~= cs);
                    return Err(e);
                },
                Step::Send(cmd) => {
                    self.calls = Ghost(self.calls@.push(PortCall::Command(cmd)));
                    dev.command(cmd)
                },
                Step::Payload { chunk, start: from, end, preamble } => {
                    let mut sent: Result<Response, ProtocolError> = Ok(Response::Okay);
                    if let Some(cmd) = preamble {
                        self.calls = Ghost(self.calls@.push(PortCall::Command(cmd)));
                        sent = dev.command(cmd);
                    }
                    match sent {
                        Err(e) => Err(e),
                        Ok(_) => {
                            assert(self.config().headers[chunk as int] == header_of(chunks@[chunk as int]));
                            let bytes = &chunks[chunk].data.as_slice()[from..end];
                            self.calls = Ghost(self.calls@.push(PortCall::Data(bytes@)));
                            dev.send_data(bytes)
                        },
                    }
                },
            };
            let ghost last = calls_of(step, chunks@);
            match reply {
                Err(e) => {
                    proof {
                        let made = self.calls@.skip(start_calls.len() as int);
                        let j = made.len() - cs.len();
                        assert(1 <= j <= last.len());
                        assert(made =~= cs + last.take(j));
                        assert(self.calls@.take(start_calls.len() as int) =~= start_calls);
                        assert(!terminal(self.phase));
                        assert(last == calls_of(step_of(c, self.phase()), chunks@));
                        assert(made == session_calls(c, p0, rs, chunks@) + last.take(j));
                    }
                    return Err(FlashError::Protocol(e));
                },
                Ok(resp) => {
                    assert(self.calls@ =~= start_calls + (cs + last));
                    proof {
                        lemma_next_phase(self.config(), self.phase, resp);
                        assert(rs.push(resp).drop_last() =~= rs);
                    }
                    step = self.on_reply(resp);
                    proof {
                        rs = rs.push(resp);
                        cs = cs + last;
                        lemma_failure_named(self.config(), first_phase(self.config()), self.replies@);
                        assert(self.replies@ =~= start + rs);
                    }
                },
            }
        }
    }
}

/// The chunk that a phase is about: before the first chunk while erasing,
/// past the last once the session has ended.
pub open spec fn phase_chunk(c: Config, p: Phase) -> int {
    match p {
        Phase::Erase { .. } => -1,
        Phase::Check { chunk } | Phase::Open { chunk } | Phase::Verify { chunk } => chunk as int,
        Phase::Stream { chunk, .. } => chunk as int,
        Phase::Done | Phase::Failed(_) => c.headers.len() as int,
    }
}

/// The phase erases or writes chunk `i`.
pub open spec fn writes_chunk(p: Phase, i: int) -> bool {
    ||| p matches Phase::Open { chunk } && chunk == i
    ||| p matches Phase::Stream { chunk, .. } && chunk == i
}

proof fn lemma_next_phase_forward(c: Config, p: Phase, r: Response)
    requires
        config_wf(c),
        phase_wf(c, p),
        !(p is Erase),
    ensures
        !(next_phase(c, p, r) is Erase),
        phase_wf(c, next_phase(c, p, r)),
        phase_chunk(c, next_phase(c, p, r)) >= phase_chunk(c, p),
{
    if !terminal(p) {
        lemma_next_phase(c, p, r);
    }
}

proof fn lemma_replay_forward(c: Config, p: Phase, rs: Seq<Response>)
    requires
        config_wf(c),
        phase_wf(c, p),
        !(p is Erase),
    ensures
        !(replay(c, p, rs) is Erase),
        phase_wf(c, replay(c, p, rs)),
        phase_chunk(c, replay(c, p, rs)) >= phase_chunk(c, p),
    decreases rs.len(),
{
    if rs.len() > 0 {
        lemma_replay_forward(c, p, rs.drop_last());
        lemma_next_phase_forward(c, replay(c, p, rs.drop_last()), rs.last());
    }
}

/// A chunk whose skip check is answered `OK` is already in flash: whatever
/// the stub answers afterwards, the session never erases or writes it.
pub proof fn lemma_matching_chunk_not_written(c: Config, i: int, rs: Seq<Response>)
    requires
        config_wf(c),
        !c.erase_all,
        0 <= i < c.headers.len(),
    ensures
        next_phase(c, Phase::Check { chunk: i as usize }, Response::Okay) == enter_chunk(c, i + 1),
        forall|k: int|
            0 <= k <= rs.len() ==> !writes_chunk(
                #[trigger] replay(c, enter_chunk(c, i + 1), rs.take(k)),
                i,
            ),
{
    let p = enter_chunk(c, i + 1);
    lemma_enter_chunk(c, i + 1);
    assert forall|k: int| 0 <= k <= rs.len() implies !writes_chunk(
        #[trigger] replay(c, p, rs.take(k)),
        i,
    ) by {
        lemma_replay_forward(c, p, rs.take(k));
    }
}

/// The phase sends payload of chunk `i`.
pub open spec fn is_streaming(p: Phase, i: int) -> bool {
    p matches Phase::Stream { chunk, .. } && chunk == i
}

/// `n` replies `RX_WAIT`.
pub open spec fn rx_waits(n: nat) -> Seq<Response> {
    Seq::new(n, |k: int| Response::RxWait)
}

/// How many payload pieces chunk `i` still needs from byte `from` on.
pub open spec fn pieces_from(c: Config, i: int, from: int) -> nat
    decreases c.headers[i].len - from,
    when c.packet > 0
{
    if from + c.packet >= c.headers[i].len {
        1
    } else {
        1 + pieces_from(c, i, from + c.packet)
    }
}

proof fn lemma_replay_first(c: Config, p: Phase, r: Response, rs: Seq<Response>)
    ensures
        replay(c, p, seq![r] + rs) == replay(c, next_phase(c, p, r), rs),
    decreases rs.len(),
{
    let s = seq![r] + rs;
    if rs.len() > 0 {
        assert(s.drop_last() =~= seq![r] + rs.drop_last());
        assert(s.last() == rs.last());
        lemma_replay_first(c, p, r, rs.drop_last());
    } else {
        assert(s.drop_last() =~= Seq::<Response>::empty());
        assert(s.last() == r);
        assert(replay(c, p, s.drop_last()) == p);
    }
}

/// Flow control: when the stub answers `RX_WAIT` to every payload piece of a
/// chunk but the last, and `OK` to the last, the chunk is complete exactly
/// once, at that last reply, and no error arises.
pub proof fn lemma_backpressure(c: Config, i: int, from: int)
    requires
        config_wf(c),
        !c.erase_all,
        0 <= i < c.headers.len(),
        0 <= from < c.headers[i].len,
    ensures
        ({
            let rs = rx_waits((pieces_from(c, i, from) - 1) as nat).push(Response::Okay);
            &&& replay(c, piece_from(c, i, from), rs) == after_written(c, i)
            &&& forall|k: int| 0 <= k < rs.len() ==> is_streaming(#[trigger] replay(c, piece_from(c, i, from), rs.take(k)), i)
        }),
    decreases c.headers[i].len - from,
{
    let n = pieces_from(c, i, from);
    let rs = rx_waits((n - 1) as nat).push(Response::Okay);
    let p = piece_from(c, i, from);
    if from + c.packet >= c.headers[i].len {
        assert(n == 1);
        assert(rs =~= seq![Response::Okay]);
        assert(rs.drop_last() =~= Seq::<Response>::empty());
        assert(rs.last() == Response::Okay);
        assert(replay(c, p, rs.drop_last()) == p);
        assert(replay(c, p, rs) == next_phase(c, p, Response::Okay));
        assert(rs.drop_last() =~= Seq::<Response>::empty());
        assert forall|k: int| 0 <= k < rs.len() implies is_streaming(#[trigger] replay(c, p, rs.take(k)), i) by {
            assert(rs.take(k) =~= Seq::<Response>::empty());
        }
    } else {
        let next_from = from + c.packet;
        assert(n == 1 + pieces_from(c, i, next_from));
        lemma_backpressure(c, i, next_from);
        let rs2 = rx_waits((pieces_from(c, i, next_from) - 1) as nat).push(Response::Okay);
        assert(rs =~= seq![Response::RxWait] + rs2);
        assert(next_phase(c, p, Response::RxWait) == piece_from(c, i, next_from));
        lemma_replay_first(c, p, Response::RxWait, rs2);
        assert forall|k: int| 0 <= k < rs.len() implies is_streaming(#[trigger] replay(c, p, rs.take(k)), i) by {
            if k > 0 {
                assert(rs.take(k) =~= seq![Response::RxWait] + rs2.take(k - 1));
                lemma_replay_first(c, p, Response::RxWait, rs2.take(k - 1));
                assert(is_streaming(replay(c, piece_from(c, i, next_from), rs2.take(k - 1)), i));
            } else {
                assert(rs.take(k) =~= Seq::<Response>::empty());
            }
        }
    }
}

proof fn lemma_failed_stays(c: Config, e: FlashError, rs: Seq<Response>)
    ensures
        replay(c, Phase::Failed(e), rs) == Phase::Failed(e),
    decreases rs.len(),
{
    if rs.len() > 0 {
        lemma_failed_stays(c, e, rs.drop_last());
    }
}

/// A verify after writing that is not answered `OK` ends the session with a
/// mismatch at that chunk's address; nothing is sent after it.
pub proof fn lemma_verify_failure(c: Config, i: int, r: Response, rs: Seq<Response>)
    requires
        config_wf(c),
        0 <= i < c.headers.len(),
        r != Response::Okay,
    ensures
        ({
            let e = FlashError::VerifyMismatch { address: c.headers[i].address };
            &&& next_phase(c, Phase::Verify { chunk: i as usize }, r) == Phase::Failed(e)
            &&& replay(c, Phase::Failed(e), rs) == Phase::Failed(e)
            &&& step_of(c, replay(c, Phase::Failed(e), rs)) == Step::Failed(e)
        }),
{
    lemma_failed_stays(c, FlashError::VerifyMismatch { address: c.headers[i].address }, rs);
}

proof fn lemma_erase_plan_distinct(addrs: Seq<u32>)
    ensures
        forall|i: int, j: int|
            0 <= i < j < erase_plan(addrs).len() ==> bank_of(#[trigger] erase_plan(addrs)[i]) != bank_of(
                #[trigger] erase_plan(addrs)[j],
            ),
    decreases addrs.len(),
{
    if addrs.len() > 0 {
        lemma_erase_plan_distinct(addrs.drop_last());
        let p = erase_plan(addrs.drop_last());
        let q = erase_plan(addrs);
        if !has_bank(p, addrs.last()) {
            assert forall|i: int, j: int| 0 <= i < j < q.len() implies bank_of(#[trigger] q[i]) != bank_of(
                #[trigger] q[j],
            ) by {
                assert(q[i] == p[i]);
                if j < p.len() {
                    assert(q[j] == p[j]);
                }
            }
        }
    }
}

proof fn lemma_erase_plan_covers(addrs: Seq<u32>)
    ensures
        forall|i: int| 0 <= i < addrs.len() ==> has_bank(erase_plan(addrs), #[trigger] addrs[i]),
    decreases addrs.len(),
{
    if addrs.len() > 0 {
        let prev = addrs.drop_last();
        lemma_erase_plan_covers(prev);
        let p = erase_plan(prev);
        let q = erase_plan(addrs);
        assert forall|i: int| 0 <= i < addrs.len() implies has_bank(q, #[trigger] addrs[i]) by {
            if i < prev.len() {
                assert(addrs[i] == prev[i]);
                assert(has_bank(p, prev[i]));
                let k = choose|k: int| 0 <= k < p.len() && bank_of(#[trigger] p[k]) == bank_of(prev[i]);
                assert(q[k] == p[k]);
            } else if !has_bank(p, addrs.last()) {
                assert(q[q.len() - 1] == addrs.last());
            }
        }
    }
}

proof fn lemma_erase_plan_from_chunks(addrs: Seq<u32>)
    ensures
        forall|k: int| 0 <= k < erase_plan(addrs).len() ==> addrs.contains(#[trigger] erase_plan(addrs)[k]),
    decreases addrs.len(),
{
    if addrs.len() > 0 {
        let prev = addrs.drop_last();
        lemma_erase_plan_from_chunks(prev);
        let p = erase_plan(prev);
        let q = erase_plan(addrs);
        assert forall|k: int| 0 <= k < q.len() implies addrs.contains(#[trigger] q[k]) by {
            if k < p.len() {
                assert(q[k] == p[k]);
                assert(prev.contains(p[k]));
                let m = choose|m: int| 0 <= m < prev.len() && prev[m] == p[k];
                assert(addrs[m] == prev[m]);
            } else {
                assert(addrs[addrs.len() - 1] == addrs.last());
            }
        }
    }
}

/// The erase plan names each bank that holds a chunk exactly once, by the
/// address of a chunk in it.
pub proof fn lemma_erase_plan(addrs: Seq<u32>)
    ensures
        forall|i: int, j: int|
            0 <= i < j < erase_plan(addrs).len() ==> bank_of(#[trigger] erase_plan(addrs)[i]) != bank_of(
                #[trigger] erase_plan(addrs)[j],
            ),
        forall|i: int| 0 <= i < addrs.len() ==> has_bank(erase_plan(addrs), #[trigger] addrs[i]),
        forall|k: int| 0 <= k < erase_plan(addrs).len() ==> addrs.contains(#[trigger] erase_plan(addrs)[k]),
{
    lemma_erase_plan_distinct(addrs);
    lemma_erase_plan_covers(addrs);
    lemma_erase_plan_from_chunks(addrs);
}

/// Every bulk erase is answered `OK`.
pub open spec fn erases_accepted(c: Config, rs: Seq<Response>) -> bool {
    forall|j: int| 0 <= j < rs.len() && j < c.erase.len() ==> rs[j] == Response::Okay
}

/// With bulk erase, the session begins with one erase per planned address, in
/// order, while the stub accepts them, and never erases again afterwards.
pub proof fn lemma_erase_steps(c: Config, rs: Seq<Response>)
    requires
        config_wf(c),
        c.erase_all,
        c.erase.len() > 0,
        erases_accepted(c, rs),
    ensures
        forall|k: int|
            0 <= k < c.erase.len() && k <= rs.len() ==> step_of(c, #[trigger] replay(c, first_phase(c), rs.take(k)))
                == Step::Send(Command::EraseAll { address: c.erase[k] }),
        forall|k: int|
            c.erase.len() <= k <= rs.len() ==> !(#[trigger] replay(c, first_phase(c), rs.take(k)) is Erase),
{
    assert forall|k: int| 0 <= k <= rs.len() implies (#[trigger] replay(c, first_phase(c), rs.take(k))) == (if k
        < c.erase.len() {
        Phase::Erase { bank: k as usize }
    } else {
        replay(c, enter_chunk(c, 0), rs.take(k).skip(c.erase.len() as int))
    }) by {
        lemma_erase_prefix(c, rs, k);
    }
    assert forall|k: int| c.erase.len() <= k <= rs.len() implies !(#[trigger] replay(
        c,
        first_phase(c),
        rs.take(k),
    ) is Erase) by {
        lemma_erase_prefix(c, rs, k);
        lemma_enter_chunk(c, 0);
        lemma_replay_forward(c, enter_chunk(c, 0), rs.take(k).skip(c.erase.len() as int));
    }
}

proof fn lemma_erase_prefix(c: Config, rs: Seq<Response>, k: int)
    requires
        config_wf(c),
        c.erase_all,
        c.erase.len() > 0,
        erases_accepted(c, rs),
        0 <= k <= rs.len(),
    ensures
        replay(c, first_phase(c), rs.take(k)) == (if k < c.erase.len() {
            Phase::Erase { bank: k as usize }
        } else {
            replay(c, enter_chunk(c, 0), rs.take(k).skip(c.erase.len() as int))
        }),
    decreases k,
{
    let n = c.erase.len() as int;
    if k == 0 {
        assert(rs.take(0) =~= Seq::<Response>::empty());
    } else {
        lemma_erase_prefix(c, rs, k - 1);
        assert(rs.take(k).drop_last() =~= rs.take(k - 1));
        assert(rs.take(k).last() == rs[k - 1]);
        if k > n {
            assert(rs.take(k).skip(n).drop_last() =~= rs.take(k - 1).skip(n));
            assert(rs.take(k).skip(n).last() == rs.take(k).last());
        } else if k == n {
            assert(rs.take(k).skip(n) =~= Seq::<Response>::empty());
        }
    }
}

/// A bulk erase that is not answered `OK` ends the session with an erase
/// error naming its address; nothing is sent after it.
pub proof fn lemma_erase_failure(c: Config, b: int, r: Response, rs: Seq<Response>)
    requires
        config_wf(c),
        0 <= b < c.erase.len(),
        r != Response::Okay,
    ensures
        ({
            let e = FlashError::EraseFailed { address: c.erase[b] };
            &&& next_phase(c, Phase::Erase { bank: b as usize }, r) == Phase::Failed(e)
            &&& replay(c, Phase::Failed(e), rs) == Phase::Failed(e)
            &&& step_of(c, replay(c, Phase::Failed(e), rs)) == Step::Failed(e)
        }),
{
    lemma_failed_stays(c, FlashError::EraseFailed { address: c.erase[b] }, rs);
}

/// Whether `chunks` can be sequenced: see `chunks_wf`.
pub fn chunks_ready(chunks: &Vec<FlashChunk>) -> (r: bool)
    ensures
        r == chunks_wf(chunks@),
{
    let mut i: usize = 0;
    while i < chunks.len()
        invariant
            i <= chunks@.len(),
            forall|j: int| 0 <= j < i ==> (#[trigger] chunks@[j]).data@.len() > 0 && fits(model(chunks@[j])),
        decreases chunks@.len() - i,
    {
        let c = &chunks[i];
        let len = c.data.len();
        if len == 0 || len as u64 > 0xffff_ffff || len as u64 > 0x1_0000_0000u64 - c.address as u64 {
            assert(!(chunks@[i as int].data@.len() > 0 && fits(model(chunks@[i as int]))));
            return false;
        }
        i = i + 1;
    }
    true
}

/// The sequencer for writing `chunks` as `params` asks (bulk erase, final
/// verify), with small payload pieces in compatibility mode.
pub fn writer_for(chunks: &Vec<FlashChunk>, params: &WriteFlashParams, compat: bool) -> (w: FlashWriter)
    requires
        chunks_wf(chunks@),
    ensures
        w.wf(),
        w.config().headers == chunks@.map_values(|c: FlashChunk| header_of(c)),
        w.config().erase == (if params.erase_all { erase_plan(addresses(chunks@)) } else { Seq::empty() }),
        w.config().erase_all == params.erase_all,
        w.config().verify == params.verify,
        w.config().packet == (if compat { COMPAT_PACKET } else { PACKET }),
        w.phase() == first_phase(w.config()),
        w.replies() == Seq::<Response>::empty(),
        w.calls() == Seq::<PortCall>::empty(),
{
    FlashWriter::new(chunks, params.erase_all, params.verify, compat)
}

pub trait WriteFlashTrait: RamCommand + Sized {
    /// Writes `chunks` to flash over this port, as `writer` sequences it.
    fn write_flash(&mut self, writer: &mut FlashWriter, chunks: &Vec<FlashChunk>) -> (r: Result<(), FlashError>)
        requires
            old(writer).wf(),
            old(writer).config().headers == chunks@.map_values(|c: FlashChunk| header_of(c)),
        ensures
            session_report(*old(writer), *final(writer), chunks@, r),
    {
        writer.run(self, chunks)
    }
}

proof fn lemma_replay_split(c: Config, p: Phase, a: Seq<Response>, b: Seq<Response>)
    ensures
        replay(c, p, a + b) == replay(c, replay(c, p, a), b),
    decreases b.len(),
{
    if b.len() == 0 {
        assert(a + b =~= a);
    } else {
        assert((a + b).drop_last() =~= a + b.drop_last());
        assert((a + b).last() == b.last());
        lemma_replay_split(c, p, a, b.drop_last());
    }
}

/// The port calls of a session split where its replies split.
pub proof fn lemma_session_split(c: Config, p: Phase, a: Seq<Response>, b: Seq<Response>, chunks: Seq<FlashChunk>)
    ensures
        session_calls(c, p, a + b, chunks) == session_calls(c, p, a, chunks) + session_calls(
            c,
            replay(c, p, a),
            b,
            chunks,
        ),
    decreases b.len(),
{
    if b.len() == 0 {
        assert(a + b =~= a);
        assert(session_calls(c, p, a, chunks) + Seq::<PortCall>::empty() =~= session_calls(c, p, a, chunks));
    } else {
        assert((a + b).drop_last() =~= a + b.drop_last());
        assert((a + b).last() == b.last());
        lemma_session_split(c, p, a, b.drop_last(), chunks);
        lemma_replay_split(c, p, a, b.drop_last());
        let x = session_calls(c, p, a, chunks);
        let y = session_calls(c, replay(c, p, a), b.drop_last(), chunks);
        let z = calls_of(step_of(c, replay(c, replay(c, p, a), b.drop_last())), chunks);
        assert(x + y + z =~= x + (y + z));
    }
}

proof fn lemma_failed_sends_nothing(c: Config, e: FlashError, rs: Seq<Response>, chunks: Seq<FlashChunk>)
    ensures
        session_calls(c, Phase::Failed(e), rs, chunks) == Seq::<PortCall>::empty(),
    decreases rs.len(),
{
    if rs.len() > 0 {
        lemma_failed_sends_nothing(c, e, rs.drop_last(), chunks);
        lemma_failed_stays(c, e, rs.drop_last());
        assert(Seq::<PortCall>::empty() + Seq::<PortCall>::empty() =~= Seq::<PortCall>::empty());
    }
}

/// Once the replies `a` have ended a session in failure (a refused erase or
/// write, a failed verify), whatever replies `b` might follow, the port sees
/// no further call.
pub proof fn lemma_nothing_sent_after_failure(
    c: Config,
    p: Phase,
    a: Seq<Response>,
    b: Seq<Response>,
    chunks: Seq<FlashChunk>,
)
    requires
        replay(c, p, a) is Failed,
    ensures
        session_calls(c, p, a + b, chunks) == session_calls(c, p, a, chunks),
{
    lemma_session_split(c, p, a, b, chunks);
    let e = replay(c, p, a)->Failed_0;
    assert(replay(c, p, a) == Phase::Failed(e));
    lemma_failed_sends_nothing(c, e, b, chunks);
    assert(session_calls(c, p, a, chunks) + Seq::<PortCall>::empty() =~= session_calls(c, p, a, chunks));
}

} // verus!
