//! The relay of one session: what each directional pump does with a read,
//! and how the session ends when either pump stops.
use vstd::prelude::*;

verus! {

/// A socket-level failure on a read or a write.
#[derive(Debug, Clone, Copy, PartialEq, Eq, Structural)]
pub enum TransportError {
    Read,
    Write,
}

/// Uniform read/write capability over one byte stream, or over a pool of them.
pub trait TcpInstance {
    /// Blocks until bytes are available or the peer closed; end of stream
    /// comes back as chunks holding no byte.
    fn read(&mut self) -> Result<Vec<Vec<u8>>, TransportError>;

    /// Blocks until `buffer` is fully accepted by the transport.
    fn write(&mut self, buffer: &[u8]) -> Result<(), TransportError>;
}

/// One end of a session.
#[derive(Debug, Clone, Copy, PartialEq, Eq, Structural)]
pub enum Side {
    Client,
    Target,
}

/// Why a directional pump stopped.
#[derive(Debug, Clone, Copy, PartialEq, Eq, Structural)]
pub enum StopReason {
    /// The side it reads from closed gracefully.
    EndOfStream,
    /// Reading from its source failed.
    ReadFailed,
    /// Writing to its destination failed.
    WriteFailed,
}

/// What a pump does after one read.
#[derive(Debug, Clone, PartialEq, Eq)]
pub enum PumpAction {
    /// Write these bytes to the other side, then read again.
    Forward(Vec<u8>),
    /// Stop pumping.
    Stop(StopReason),
}

/// The bytes of `chunks`, one chunk after the other.
pub open spec fn joined(chunks: Seq<Vec<u8>>) -> Seq<u8>
    decreases chunks.len(),
{
    if chunks.len() == 0 {
        Seq::empty()
    } else {
        joined(chunks.drop_last()) + chunks.last()@
    }
}

/// The decision a pump takes on one read result.
pub open spec fn pump_decides(read: Result<Vec<Vec<u8>>, TransportError>, action: PumpAction) -> bool {
    match read {
        Err(_) => action == PumpAction::Stop(StopReason::ReadFailed),
        Ok(chunks) => if joined(chunks@).len() == 0 {
            action == PumpAction::Stop(StopReason::EndOfStream)
        } else {
            action matches PumpAction::Forward(b) && b@ == joined(chunks@)
        },
    }
}

/// The bytes a source delivers over a run of reads, up to the first read
/// that ends the stream or fails.
pub open spec fn delivered(reads: Seq<Result<Vec<Vec<u8>>, TransportError>>) -> Seq<u8>
    decreases reads.len(),
{
    if reads.len() == 0 {
        Seq::empty()
    } else {
        match reads[0] {
            Ok(chunks) => if joined(chunks@).len() == 0 {
                Seq::empty()
            } else {
                joined(chunks@) + delivered(reads.drop_first())
            },
            Err(_) => Seq::empty(),
        }
    }
}

/// The bytes a run of pump actions writes, up to the first stop.
pub open spec fn forwarded(actions: Seq<PumpAction>) -> Seq<u8>
    decreases actions.len(),
{
    if actions.len() == 0 {
        Seq::empty()
    } else {
        match actions[0] {
            PumpAction::Forward(b) => b@ + forwarded(actions.drop_first()),
            PumpAction::Stop(_) => Seq::empty(),
        }
    }
}

/// Decides what a pump does with the result of one read from its source:
/// forward every byte read, in order and in one write, or stop on end of
/// stream or on a failed read.
pub fn handle_conn(read: Result<Vec<Vec<u8>>, TransportError>) -> (r: PumpAction)
    ensures
        pump_decides(read, r),
{
    match read {
        Err(_) => PumpAction::Stop(StopReason::ReadFailed),
        Ok(chunks) => {
            let mut bytes: Vec<u8> = Vec::new();
            let mut i: usize = 0;
            while i < chunks.len()
                invariant
                    i <= chunks@.len(),
                    bytes@ == joined(chunks@.subrange(0, i as int)),
                decreases chunks@.len() - i,
            {
                let chunk = &chunks[i];
                let ghost before = bytes@;
                let mut k: usize = 0;
                while k < chunk.len()
                    invariant
                        k <= chunk@.len(),
                        bytes@ == before + chunk@.subrange(0, k as int),
                    decreases chunk@.len() - k,
                {
                    bytes.push(chunk[k]);
                    k = k + 1;
                    assert(bytes@ =~= before + chunk@.subrange(0, k as int));
                }
                proof {
                    let s = chunks@.subrange(0, i as int + 1);
                    assert(s.drop_last() =~= chunks@.subrange(0, i as int));
                    assert(chunk@.subrange(0, k as int) =~= chunk@);
                }
                i = i + 1;
            }
            assert(chunks@.subrange(0, i as int) =~= chunks@);
            if bytes.len() == 0 {
                PumpAction::Stop(StopReason::EndOfStream)
            } else {
                PumpAction::Forward(bytes)
            }
        }
    }
}

/// A pump that decides every read with `handle_conn` writes to the other
/// side exactly the bytes its source delivered: same bytes, same order, none
/// lost, none repeated.
pub proof fn lemma_pump_preserves_stream(
    reads: Seq<Result<Vec<Vec<u8>>, TransportError>>,
    actions: Seq<PumpAction>,
)
    requires
        actions.len() == reads.len(),
        forall|k: int| 0 <= k < reads.len() ==> pump_decides(#[trigger] reads[k], actions[k]),
    ensures
        forwarded(actions) == delivered(reads),
    decreases reads.len(),
{
    if reads.len() > 0 {
        assert(pump_decides(reads[0], actions[0]));
        let rest_r = reads.drop_first();
        let rest_a = actions.drop_first();
        assert forall|k: int| 0 <= k < rest_r.len() implies pump_decides(#[trigger] rest_r[k], rest_a[k]) by {
            assert(pump_decides(reads[k + 1], actions[k + 1]));
        }
        lemma_pump_preserves_stream(rest_r, rest_a);
    }
}

/// How a session ended: the first pump stop decides it.
#[derive(Debug, Clone, Copy, PartialEq, Eq, Structural)]
pub enum SessionEnd {
    ClientClosed,
    TargetClosed,
    ClientFailed,
    TargetFailed,
}

/// What the relay does when a pump stops.
#[derive(Debug, Clone, Copy, PartialEq, Eq, Structural)]
pub struct RelayAction {
    /// Close both connections, which makes the other pump return.
    pub close_both: bool,
    /// Report a failure of this target to the pool.
    pub report_target: Option<usize>,
}

/// The session end that a pump stop means: `from` is the side the pump reads.
pub open spec fn end_of(from: Side, reason: StopReason) -> SessionEnd {
    match (from, reason) {
        (Side::Client, StopReason::EndOfStream) => SessionEnd::ClientClosed,
        (Side::Client, StopReason::ReadFailed) => SessionEnd::ClientFailed,
        (Side::Client, StopReason::WriteFailed) => SessionEnd::TargetFailed,
        (Side::Target, StopReason::EndOfStream) => SessionEnd::TargetClosed,
        (Side::Target, StopReason::ReadFailed) => SessionEnd::TargetFailed,
        (Side::Target, StopReason::WriteFailed) => SessionEnd::ClientFailed,
    }
}

/// Abstract state of a session's relay.
pub ghost struct RelayState {
    pub target: int,
    pub client_pump_running: bool,
    pub target_pump_running: bool,
    pub end: Option<SessionEnd>,
}

pub open spec fn relay_started(target: int) -> RelayState {
    RelayState { target, client_pump_running: true, target_pump_running: true, end: None }
}

/// State after the pump reading `from` stops for `reason`.
pub open spec fn relay_after(s: RelayState, from: Side, reason: StopReason) -> RelayState {
    RelayState {
        target: s.target,
        client_pump_running: s.client_pump_running && from != Side::Client,
        target_pump_running: s.target_pump_running && from != Side::Target,
        end: if s.end is None { Some(end_of(from, reason)) } else { s.end },
    }
}

/// What the relay does when the pump reading `from` stops for `reason`: the
/// first stop closes both sides, and reports the target to the pool when the
/// target side failed; later stops only follow from that closing.
pub open spec fn relay_action(s: RelayState, from: Side, reason: StopReason) -> RelayAction {
    if s.end is None {
        RelayAction {
            close_both: true,
            report_target: if end_of(from, reason) == SessionEnd::TargetFailed {
                Some(s.target as usize)
            } else {
                None
            },
        }
    } else {
        RelayAction { close_both: false, report_target: None }
    }
}

pub open spec fn relay_finished(s: RelayState) -> bool {
    !s.client_pump_running && !s.target_pump_running
}

/// The state of one session: the target it is bound to, which of its two
/// pumps still run, and how it ended once one stopped.
pub struct Relay {
    target: usize,
    client_pump_running: bool,
    target_pump_running: bool,
    end: Option<SessionEnd>,
}

impl View for Relay {
    type V = RelayState;

    closed spec fn view(&self) -> RelayState {
        RelayState {
            target: self.target as int,
            client_pump_running: self.client_pump_running,
            target_pump_running: self.target_pump_running,
            end: self.end,
        }
    }
}

fn session_end(from: Side, reason: StopReason) -> (r: SessionEnd)
    ensures
        r == end_of(from, reason),
{
    match (from, reason) {
        (Side::Client, StopReason::EndOfStream) => SessionEnd::ClientClosed,
        (Side::Client, StopReason::ReadFailed) => SessionEnd::ClientFailed,
        (Side::Client, StopReason::WriteFailed) => SessionEnd::TargetFailed,
        (Side::Target, StopReason::EndOfStream) => SessionEnd::TargetClosed,
        (Side::Target, StopReason::ReadFailed) => SessionEnd::TargetFailed,
        (Side::Target, StopReason::WriteFailed) => SessionEnd::ClientFailed,
    }
}

impl Relay {
    /// A session bound to pool target `target`, both pumps running.
    pub fn new(target: usize) -> (r: Relay)
        ensures
            r@ == relay_started(target as int),
    {
        Relay { target, client_pump_running: true, target_pump_running: true, end: None }
    }

    /// The pool target this session is bound to for its whole life.
    pub fn target(&self) -> (r: usize)
        ensures
            r == self@.target,
    {
        self.target
    }

    /// How the session ended, once a pump has stopped.
    pub fn end(&self) -> (r: Option<SessionEnd>)
        ensures
            r == self@.end,
    {
        self.end
    }

    /// Whether both pumps have stopped.
    pub fn is_finished(&self) -> (r: bool)
        ensures
            r == relay_finished(self@),
    {
        !self.client_pump_running && !self.target_pump_running
    }

    /// Records that the pump reading `from` stopped for `reason`, and says
    /// what to do about it.
    pub fn pump_stopped(&mut self, from: Side, reason: StopReason) -> (r: RelayAction)
        ensures
            final(self)@ == relay_after(old(self)@, from, reason),
            r == relay_action(old(self)@, from, reason),
    {
        let first = self.end.is_none();
        match from {
            Side::Client => self.client_pump_running = false,
            Side::Target => self.target_pump_running = false,
        }
        if first {
            let end = session_end(from, reason);
            self.end = Some(end);
            let report_target = match end {
                SessionEnd::TargetFailed => Some(self.target),
                _ => None,
            };
            RelayAction { close_both: true, report_target }
        } else {
            RelayAction { close_both: false, report_target: None }
        }
    }
}

/// When the client closes its socket, the relay closes the target side at
/// once, reports nothing to the pool, and the session is over as soon as the
/// target pump returns, whatever it returns with.
pub proof fn lemma_client_close_ends_session(target: int, reason: StopReason)
    ensures
        relay_action(relay_started(target), Side::Client, StopReason::EndOfStream)
            == (RelayAction { close_both: true, report_target: None }),
        relay_finished(relay_after(relay_after(relay_started(target), Side::Client, StopReason::EndOfStream), Side::Target, reason)),
        relay_after(relay_after(relay_started(target), Side::Client, StopReason::EndOfStream), Side::Target, reason).end
            == Some(SessionEnd::ClientClosed),
        relay_action(relay_after(relay_started(target), Side::Client, StopReason::EndOfStream), Side::Target, reason).report_target is None,
{
}

/// Whichever pump stops first, the relay closes both sides, so the other
/// pump returns and the session finishes after exactly two stops; a failure
/// is reported to the pool at most once, and only of the session's target.
pub proof fn lemma_session_always_finishes(target: int, from: Side, r1: StopReason, r2: StopReason)
    ensures
        relay_action(relay_started(target), from, r1).close_both,
        relay_finished(relay_after(relay_after(relay_started(target), from, r1),
            if from == Side::Client { Side::Target } else { Side::Client }, r2)),
        relay_action(relay_after(relay_started(target), from, r1),
            if from == Side::Client { Side::Target } else { Side::Client }, r2).report_target is None,
        relay_action(relay_started(target), from, r1).report_target matches Some(t) ==> t == target as usize,
{
}

} // verus!
