//! The server that routers connect to: which connections it takes, and what
//! it does with the bytes that arrive on one.

use crate::buffer::{buffer_advance, buffer_bytes, buffer_split_to, buffered, chunk_bytes, frozen};
use crate::config::Config;
use crate::error::RZError;
use crate::metrics::{nothing_counted, BridgeMetrics};
use crate::protocol::{
    build_error_response, decoded, error_payload, find_next_router_magic, is_next_magic,
    shard_frame, try_decode_router, DecodeResult, RouterDecode, KEEPALIVE_SEGMENT, ROUTER_MAGIC,
};
use crate::text::same_text;
use bytes::{Bytes, BytesMut};
use vstd::prelude::*;

verus! {

/// The server as it stands: its settings and how many connections are open.
#[derive(Debug)]
pub struct TcpServer {
    pub config: Config,
    pub active_connections: usize,
}

/// How many connections are open after one more arrives, where `arrives`, or
/// after one closes. The count wraps below 0.
pub open spec fn open_after(open: usize, max: usize, arrives: bool) -> usize {
    if arrives {
        if open < max {
            (open + 1) as usize
        } else {
            open
        }
    } else if open > 0 {
        (open - 1) as usize
    } else {
        usize::MAX
    }
}

impl TcpServer {
    /// A server with no connection.
    pub fn new(config: Config) -> (server: Self)
        ensures
            server.config == config,
            server.active_connections == 0,
    {
        TcpServer { config, active_connections: 0 }
    }

    /// Decides on a new connection: it is taken, and counted, where fewer than
    /// `max_connections` are open, and dropped where not.
    pub fn accept(&mut self) -> (taken: bool)
        ensures
            taken == (old(self).active_connections < old(self).config.max_connections),
            final(self).config == old(self).config,
            final(self).active_connections == open_after(
                old(self).active_connections,
                old(self).config.max_connections,
                true,
            ),
            taken ==> final(self).active_connections == old(self).active_connections + 1,
            !taken ==> final(self).active_connections == old(self).active_connections,
    {
        if self.active_connections >= self.config.max_connections {
            return false;
        }
        self.active_connections = self.active_connections + 1;
        true
    }

    /// Counts a connection as closed. The count wraps below 0.
    pub fn release(&mut self)
        ensures
            final(self).config == old(self).config,
            final(self).active_connections == open_after(
                old(self).active_connections,
                old(self).config.max_connections,
                false,
            ),
            old(self).active_connections > 0 ==> final(self).active_connections
                == old(self).active_connections - 1,
            old(self).active_connections == 0 ==> final(self).active_connections == usize::MAX,
    {
        self.active_connections = self.active_connections.wrapping_sub(1);
    }
}

/// What reading from a connection came to.
#[derive(Debug, Clone, Copy)]
pub enum ReadOutcome {
    /// That many bytes arrived; none means that the peer closed.
    Received(usize),
    /// The read failed.
    Failed,
    /// Nothing arrived for too long.
    IdleTimeout,
}

/// Whether a connection lives on after a read.
pub open spec fn lives_on(outcome: ReadOutcome) -> bool {
    outcome matches ReadOutcome::Received(n) && n > 0
}

/// What a read adds to the counters.
pub open spec fn read_counts(outcome: ReadOutcome) -> BridgeMetrics {
    match outcome {
        ReadOutcome::Received(n) => BridgeMetrics {
            bytes_received: n as u64,
            ..nothing_counted()
        },
        ReadOutcome::Failed => nothing_counted(),
        ReadOutcome::IdleTimeout => BridgeMetrics { timeouts: 1, ..nothing_counted() },
    }
}

/// Decides after a read: the first value says whether the connection lives on,
/// the second what to count.
pub fn after_read(outcome: ReadOutcome) -> (decision: (bool, BridgeMetrics))
    ensures
        decision.0 == lives_on(outcome),
        decision.0 <==> (outcome matches ReadOutcome::Received(n) && n > 0),
        decision.1 == read_counts(outcome),
        decision.1 == (BridgeMetrics {
            bytes_received: match outcome {
                ReadOutcome::Received(n) => n as u64,
                _ => 0,
            },
            timeouts: match outcome {
                ReadOutcome::IdleTimeout => 1,
                _ => 0,
            },
            ..nothing_counted()
        }),
{
    let mut counts: BridgeMetrics = BridgeMetrics::new();
    match outcome {
        ReadOutcome::Received(n) => {
            counts.bytes_received = n as u64;
            (n > 0, counts)
        },
        ReadOutcome::Failed => (false, counts),
        ReadOutcome::IdleTimeout => {
            counts.timeouts = 1;
            (false, counts)
        },
    }
}

/// What a connection may use.
#[derive(Debug, Clone, Copy)]
pub struct ConnectionLimits {
    /// Most bytes that may wait in the buffer.
    pub max_buffer_size: usize,
    /// Longest router frame.
    pub max_frame_size: usize,
    /// Longest time that a frame may take to arrive, in nanoseconds.
    pub frame_timeout_nanos: u128,
}

/// What to do next with a connection's buffer.
#[derive(Debug)]
pub enum StreamStep {
    /// Wait for more bytes.
    ReadMore,
    /// Garbage was skipped: look at the buffer again.
    Resynced,
    /// A keepalive was taken: look at the buffer again.
    Keepalive,
    /// A request was taken: have it executed.
    Execute { is_write: bool, shard_frame: Vec<u8>, original_clrid: u32 },
    /// Close the connection.
    Close,
}

/// A [`StreamStep`] over plain values.
pub enum StepView {
    ReadMore,
    Resynced,
    Keepalive,
    Execute { is_write: bool, shard_frame: Seq<u8>, original_clrid: u32 },
    Close,
}

impl View for StreamStep {
    type V = StepView;

    open spec fn view(&self) -> StepView {
        match *self {
            StreamStep::ReadMore => StepView::ReadMore,
            StreamStep::Resynced => StepView::Resynced,
            StreamStep::Keepalive => StepView::Keepalive,
            StreamStep::Execute { is_write, shard_frame, original_clrid } => StepView::Execute {
                is_write,
                shard_frame: shard_frame@,
                original_clrid,
            },
            StreamStep::Close => StepView::Close,
        }
    }
}

/// A step, what it counts and what it leaves in the buffer.
pub struct Stepped {
    pub step: StepView,
    pub counts: BridgeMetrics,
    pub rest: Seq<u8>,
}

/// Looks for the next frame in `buf`, which starts with none: the first byte
/// goes, then all before the next magic byte. Where none follows, a long
/// remainder is cut to its last 8 bytes.
pub open spec fn resynced(buf: Seq<u8>) -> Stepped {
    let tail = buf.skip(1);
    let counts = BridgeMetrics { client_errors: 1, resyncs: 1, ..nothing_counted() };
    match tail.index_of_first(ROUTER_MAGIC) {
        Some(pos) => Stepped { step: StepView::Resynced, counts, rest: tail.skip(pos) },
        None => Stepped {
            step: StepView::ReadMore,
            counts,
            rest: if tail.len() > 64 {
                tail.skip(tail.len() - 8)
            } else {
                tail
            },
        },
    }
}

/// The next step for a connection whose buffer holds `buf` and whose last
/// frame arrived `waited_nanos` ago.
pub open spec fn stepped(buf: Seq<u8>, limits: ConnectionLimits, waited_nanos: u128) -> Stepped {
    if buf.len() > limits.max_buffer_size {
        Stepped {
            step: StepView::Close,
            counts: BridgeMetrics { client_errors: 1, ..nothing_counted() },
            rest: buf,
        }
    } else {
        match decoded(buf) {
            RouterDecode::NeedMore => if waited_nanos > limits.frame_timeout_nanos {
                Stepped {
                    step: StepView::Close,
                    counts: BridgeMetrics { timeouts: 1, ..nothing_counted() },
                    rest: buf,
                }
            } else {
                Stepped { step: StepView::ReadMore, counts: nothing_counted(), rest: buf }
            },
            RouterDecode::Frame {
                frame_len,
                segment,
                is_write,
                shard_frame,
                clrid_offset,
                original_clrid,
            } => if frame_len > limits.max_frame_size {
                Stepped {
                    step: StepView::Close,
                    counts: BridgeMetrics { client_errors: 1, ..nothing_counted() },
                    rest: buf,
                }
            } else if segment == KEEPALIVE_SEGMENT@ {
                Stepped {
                    step: StepView::Keepalive,
                    counts: BridgeMetrics {
                        frames_received: 1,
                        keepalives_received: 1,
                        ..nothing_counted()
                    },
                    rest: buf.skip(frame_len as int),
                }
            } else {
                Stepped {
                    step: StepView::Execute { is_write, shard_frame, original_clrid },
                    counts: BridgeMetrics { frames_received: 1, ..nothing_counted() },
                    rest: buf.skip(frame_len as int),
                }
            },
            RouterDecode::Error(_) => resynced(buf),
        }
    }
}

/// Where the search for a magic byte ended is where its first copy stands.
proof fn first_magic(buf: Seq<u8>, found: Option<usize>)
    requires
        found matches Some(pos) ==> is_next_magic(buf, 0, pos as int),
        found is None ==> forall|i: int| 0 <= i < buf.len() ==> buf[i] != ROUTER_MAGIC,
    ensures
        found matches Some(pos) ==> buf.index_of_first(ROUTER_MAGIC) == Some(pos as int),
        found is None ==> buf.index_of_first(ROUTER_MAGIC) is None,
{
    buf.index_of_first_ensures(ROUTER_MAGIC);
    if let Some(pos) = found {
        assert(buf.contains(ROUTER_MAGIC));
    }
}

/// Skips what is no frame at the front of `buf`.
fn resync(buf: &mut BytesMut) -> (decision: (StreamStep, BridgeMetrics))
    requires
        buffered(*old(buf)).len() > 0,
    ensures
        decision.0@ == resynced(buffered(*old(buf))).step,
        decision.1 == resynced(buffered(*old(buf))).counts,
        buffered(*final(buf)) == resynced(buffered(*old(buf))).rest,
{
    let mut counts: BridgeMetrics = BridgeMetrics::new();
    counts.client_errors = 1;
    counts.resyncs = 1;
    buffer_advance(buf, 1);
    let found: Option<usize> = find_next_router_magic(buffer_bytes(buf), 0);
    proof {
        first_magic(buffered(*buf), found);
    }
    match found {
        Some(pos) => {
            buffer_advance(buf, pos);
            (StreamStep::Resynced, counts)
        },
        None => {
            let len: usize = buffer_bytes(buf).len();
            if len > 64 {
                buffer_advance(buf, len - 8);
            }
            (StreamStep::ReadMore, counts)
        },
    }
}

/// Decides what to do with the bytes in `buf`, of which a whole frame or
/// garbage is taken out, and what to count. `waited_nanos` is the time since
/// the last frame.
pub fn next_step(buf: &mut BytesMut, limits: &ConnectionLimits, waited_nanos: u128) -> (decision: (
    StreamStep,
    BridgeMetrics,
))
    ensures
        decision.0@ == stepped(buffered(*old(buf)), *limits, waited_nanos).step,
        decision.1 == stepped(buffered(*old(buf)), *limits, waited_nanos).counts,
        buffered(*final(buf)) == stepped(buffered(*old(buf)), *limits, waited_nanos).rest,
{
    let mut counts: BridgeMetrics = BridgeMetrics::new();
    if buffer_bytes(buf).len() > limits.max_buffer_size {
        counts.client_errors = 1;
        return (StreamStep::Close, counts);
    }
    match try_decode_router(buffer_bytes(buf)) {
        DecodeResult::NeedMore => {
            if waited_nanos > limits.frame_timeout_nanos {
                counts.timeouts = 1;
                (StreamStep::Close, counts)
            } else {
                (StreamStep::ReadMore, counts)
            }
        },
        DecodeResult::Frame {
            frame_len,
            segment,
            is_write,
            shard_frame,
            clrid_offset: _,
            original_clrid,
        } => {
            if frame_len > limits.max_frame_size {
                counts.client_errors = 1;
                return (StreamStep::Close, counts);
            }
            counts.frames_received = 1;
            let _taken: BytesMut = buffer_split_to(buf, frame_len);
            if same_text(segment.as_str(), KEEPALIVE_SEGMENT) {
                counts.keepalives_received = 1;
                (StreamStep::Keepalive, counts)
            } else {
                (StreamStep::Execute { is_write, shard_frame, original_clrid }, counts)
            }
        },
        DecodeResult::Error(_) => resync(buf),
    }
}

/// One connection from a router, on a clock that counts nanoseconds.
#[derive(Debug, Clone, Copy)]
pub struct RouterLink {
    pub limits: ConnectionLimits,
    /// When the last frame arrived, or, before the first, when the connection
    /// was taken.
    pub last_frame_nanos: u128,
}

impl RouterLink {
    /// A connection that is taken at `now_nanos`.
    pub fn new(limits: ConnectionLimits, now_nanos: u128) -> (link: Self)
        ensures
            link.limits == limits,
            link.last_frame_nanos == now_nanos,
    {
        RouterLink { limits, last_frame_nanos: now_nanos }
    }

    /// How long the connection has been without a frame at `now_nanos`.
    pub open spec fn waited(self, now_nanos: u128) -> u128 {
        if now_nanos > self.last_frame_nanos {
            (now_nanos - self.last_frame_nanos) as u128
        } else {
            0
        }
    }

    /// Decides at `now_nanos` what to do with the bytes in `buf`, and what to
    /// count. A frame that is taken restarts the wait for the next.
    pub fn step(&mut self, buf: &mut BytesMut, now_nanos: u128) -> (decision: (
        StreamStep,
        BridgeMetrics,
    ))
        ensures
            ({
                let waited = old(self).waited(now_nanos);
                let after = stepped(buffered(*old(buf)), old(self).limits, waited);
                &&& decision.0@ == after.step
                &&& decision.1 == after.counts
                &&& buffered(*final(buf)) == after.rest
            }),
            final(self).limits == old(self).limits,
            final(self).last_frame_nanos == if decision.0@ is Keepalive || decision.0@ is Execute {
                now_nanos
            } else {
                old(self).last_frame_nanos
            },
    {
        let waited: u128 = if now_nanos > self.last_frame_nanos {
            now_nanos - self.last_frame_nanos
        } else {
            0
        };
        let decision: (StreamStep, BridgeMetrics) = next_step(buf, &self.limits, waited);
        match &decision.0 {
            StreamStep::Keepalive => {
                self.last_frame_nanos = now_nanos;
            },
            StreamStep::Execute { is_write: _, shard_frame: _, original_clrid: _ } => {
                self.last_frame_nanos = now_nanos;
            },
            _ => {},
        }
        decision
    }
}

/// What goes back to a router.
#[derive(Debug)]
pub enum Answer {
    /// The shard's response; the connection stays open.
    Response(Bytes),
    /// An error response; the connection is closed after it.
    Failure(Vec<u8>),
}

/// What answering a request adds to the counters, where the shard gave
/// `response` or, where it is none, failed.
pub open spec fn answer_counts(response: Option<Seq<u8>>) -> BridgeMetrics {
    match response {
        Some(bytes) => BridgeMetrics {
            frames_executed: 1,
            bytes_sent: bytes.len() as u64,
            ..nothing_counted()
        },
        None => BridgeMetrics { execute_errors: 1, ..nothing_counted() },
    }
}

/// Answers the request that came with `original_clrid`: with the shard's
/// response, or, where there is none, with an error response of code 4. The
/// second value is what to count.
pub fn answer(original_clrid: u32, result: Result<Bytes, RZError>) -> (decision: (
    Answer,
    BridgeMetrics,
))
    ensures
        match result {
            Ok(response) => {
                &&& decision.0 == Answer::Response(response)
                &&& decision.1 == answer_counts(Some(frozen(response)))
                &&& decision.1 == (BridgeMetrics {
                    frames_executed: 1,
                    bytes_sent: frozen(response).len() as u64,
                    ..nothing_counted()
                })
            },
            Err(_) => {
                &&& decision.0 matches Answer::Failure(frame)
                &&& frame@ == shard_frame(original_clrid, error_payload(4))
                &&& decision.1 == answer_counts(None)
                &&& decision.1 == (BridgeMetrics { execute_errors: 1, ..nothing_counted() })
            },
        },
{
    let mut counts: BridgeMetrics = BridgeMetrics::new();
    match result {
        Ok(response) => {
            counts.frames_executed = 1;
            counts.bytes_sent = chunk_bytes(&response).len() as u64;
            (Answer::Response(response), counts)
        },
        Err(_) => {
            counts.execute_errors = 1;
            (Answer::Failure(build_error_response(original_clrid, 4)), counts)
        },
    }
}

} // verus!
