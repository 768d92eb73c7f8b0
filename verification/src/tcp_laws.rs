//! What holds of the server's connections as a whole.

use crate::codec::le32_at;
use crate::metrics::{nothing_counted, published, BridgeMetrics};
use crate::protocol::{
    decoded, drained, error_payload, shard_frame, DrainView, Header, RouterDecode,
    KEEPALIVE_SEGMENT, ROUTER_MAGIC,
};
use crate::protocol_laws::{
    can_be_routed, decoded_frame_is_the_front, decoding_is_final, error_response_is_read,
    router_frame, router_frame_is_decoded,
};
use crate::tcp_server::{
    answer_counts, lives_on, open_after, read_counts, stepped, ConnectionLimits, ReadOutcome,
    RouterLink, StepView,
};
use vstd::prelude::*;

verus! {

/// A step never invents or reorders bytes: what it leaves is the end of what
/// was there. A step after which the buffer is looked at again leaves less, so
/// looking ends.
pub proof fn steps_take_from_the_front(buf: Seq<u8>, limits: ConnectionLimits, waited_nanos: u128)
    ensures
        ({
            let after = stepped(buf, limits, waited_nanos);
            &&& after.rest.len() <= buf.len()
            &&& after.rest == buf.skip(buf.len() - after.rest.len())
            &&& after.step is Resynced || after.step is Keepalive || after.step is Execute
                ==> after.rest.len() < buf.len()
        }),
{
    let after = stepped(buf, limits, waited_nanos);
    decoded_frame_is_the_front(buf);
    if decoded(buf) is Error && buf.len() <= limits.max_buffer_size {
        buf.skip(1).index_of_first_ensures(ROUTER_MAGIC);
    }
    assert(after.rest =~= buf.skip(buf.len() - after.rest.len()));
}

/// A connection lives on after a read that brought bytes, however many, and
/// after no other.
pub proof fn bytes_keep_a_connection(n: usize)
    ensures
        lives_on(ReadOutcome::Received(n)) <==> n > 0,
        !lives_on(ReadOutcome::Failed),
        !lives_on(ReadOutcome::IdleTimeout),
{
}

/// A connection is closed for a buffer that is too full, a frame that takes too
/// long or a frame that is too long, and for nothing else; its bytes stay.
pub proof fn connections_are_closed_at_a_limit(
    buf: Seq<u8>,
    limits: ConnectionLimits,
    waited_nanos: u128,
)
    ensures
        ({
            let after = stepped(buf, limits, waited_nanos);
            let long = decoded(buf) matches RouterDecode::Frame {
                frame_len,
                segment,
                is_write,
                shard_frame,
                clrid_offset,
                original_clrid,
            } && frame_len > limits.max_frame_size;
            &&& after.step is Close <==> {
                ||| buf.len() > limits.max_buffer_size
                ||| decoded(buf) is NeedMore && waited_nanos > limits.frame_timeout_nanos
                ||| long
            }
            &&& after.step is Close ==> after.rest == buf
        }),
{
}

/// Within the limits a whole frame is taken out, and nothing behind it: a
/// keepalive by its segment, any other to be executed. A part of a frame stays.
pub proof fn whole_frames_are_taken(buf: Seq<u8>, limits: ConnectionLimits, waited_nanos: u128)
    requires
        buf.len() <= limits.max_buffer_size,
    ensures
        ({
            let after = stepped(buf, limits, waited_nanos);
            &&& decoded(buf) matches RouterDecode::Frame {
                frame_len,
                segment,
                is_write,
                shard_frame,
                clrid_offset,
                original_clrid,
            } ==> frame_len <= limits.max_frame_size ==> {
                &&& after.rest == buf.skip(frame_len as int)
                &&& segment == "__keepalive__"@ ==> after.step == StepView::Keepalive
                &&& segment != "__keepalive__"@ ==> after.step == (StepView::Execute {
                    is_write,
                    shard_frame,
                    original_clrid,
                })
            }
            &&& decoded(buf) is NeedMore && waited_nanos <= limits.frame_timeout_nanos ==> {
                &&& after.step == StepView::ReadMore
                &&& after.rest == buf
            }
        }),
{
}

/// What is no frame is skipped up to the next magic byte behind the first byte.
pub proof fn resync_goes_to_the_next_magic(
    buf: Seq<u8>,
    limits: ConnectionLimits,
    waited_nanos: u128,
    p: int,
)
    requires
        buf.len() <= limits.max_buffer_size,
        decoded(buf) is Error,
        1 <= p < buf.len(),
        buf[p] == 0xFE,
        forall|i: int| 1 <= i < p ==> buf[i] != 0xFE,
    ensures
        stepped(buf, limits, waited_nanos).step == StepView::Resynced,
        stepped(buf, limits, waited_nanos).rest == buf.skip(p),
{
    let past = buf.skip(1);
    past.index_of_first_ensures(ROUTER_MAGIC);
    assert(past[p - 1] == ROUTER_MAGIC);
    assert(past.contains(ROUTER_MAGIC));
    let found = past.index_of_first(ROUTER_MAGIC)->0;
    assert(past[found] == buf[found + 1]);
    assert(past.skip(p - 1) =~= buf.skip(p));
}

/// Where no magic byte follows, more is read: behind the first byte, of up to 64
/// bytes all stay, and of more the last 8.
pub proof fn resync_keeps_a_short_end(buf: Seq<u8>, limits: ConnectionLimits, waited_nanos: u128)
    requires
        buf.len() <= limits.max_buffer_size,
        decoded(buf) is Error,
        forall|i: int| 1 <= i < buf.len() ==> buf[i] != 0xFE,
    ensures
        stepped(buf, limits, waited_nanos).step == StepView::ReadMore,
        buf.len() <= 65 ==> stepped(buf, limits, waited_nanos).rest == buf.skip(1),
        buf.len() > 65 ==> stepped(buf, limits, waited_nanos).rest == buf.skip(buf.len() - 8),
{
    let past = buf.skip(1);
    past.index_of_first_ensures(ROUTER_MAGIC);
    if past.contains(ROUTER_MAGIC) {
        let i = choose|i: int| 0 <= i < past.len() && past[i] == ROUTER_MAGIC;
        assert(past[i] == buf[i + 1]);
    }
    if buf.len() > 65 {
        assert(past.skip(past.len() - 8) =~= buf.skip(buf.len() - 8));
    }
}

/// What a step counts: a frame that it takes, and whether that is a keepalive; a
/// search for the next frame; an error of the client; a frame that takes too
/// long; each once, and nothing else.
pub proof fn steps_count_what_they_do(buf: Seq<u8>, limits: ConnectionLimits, waited_nanos: u128)
    ensures
        ({
            let after = stepped(buf, limits, waited_nanos);
            let counts = after.counts;
            let full = buf.len() > limits.max_buffer_size;
            let once = |what: bool|
                if what {
                    1u64
                } else {
                    0u64
                };
            &&& counts.frames_received == once(after.step is Keepalive || after.step is Execute)
            &&& counts.keepalives_received == once(after.step is Keepalive)
            &&& counts.resyncs == once(!full && decoded(buf) is Error)
            &&& counts.client_errors == once(
                full || decoded(buf) is Error || (decoded(buf) is Frame && after.step is Close),
            )
            &&& counts.timeouts == once(
                !full && decoded(buf) is NeedMore && waited_nanos > limits.frame_timeout_nanos,
            )
            &&& counts.connections_opened == 0
            &&& counts.connections_closed == 0
            &&& counts.frames_executed == 0
            &&& counts.bytes_received == 0
            &&& counts.bytes_sent == 0
            &&& counts.execute_errors == 0
        }),
{
}

/// Where nothing happened, every counter stands at 0.
pub proof fn nothing_is_all_zero()
    ensures
        forall|i: int|
            0 <= i < published(nothing_counted()).len() ==> #[trigger] published(
                nothing_counted(),
            )[i].1 == 0,
{
}

/// Every counter is published once, under its own name.
pub proof fn counters_are_published(counts: BridgeMetrics)
    ensures
        published(counts).len() == 11,
        published(counts)[0] == ("rzbridge_connections_opened_total"@, counts.connections_opened),
        published(counts)[1] == ("rzbridge_connections_closed_total"@, counts.connections_closed),
        published(counts)[2] == ("rzbridge_frames_received_total"@, counts.frames_received),
        published(counts)[3] == ("rzbridge_frames_executed_total"@, counts.frames_executed),
        published(counts)[4] == ("rzbridge_bytes_received_total"@, counts.bytes_received),
        published(counts)[5] == ("rzbridge_bytes_sent_total"@, counts.bytes_sent),
        published(counts)[6] == ("rzbridge_keepalives_received_total"@, counts.keepalives_received),
        published(counts)[7] == ("rzbridge_client_errors_total"@, counts.client_errors),
        published(counts)[8] == ("rzbridge_execute_errors_total"@, counts.execute_errors),
        published(counts)[9] == ("rzbridge_timeouts_total"@, counts.timeouts),
        published(counts)[10] == ("rzbridge_resyncs_total"@, counts.resyncs),
{
}

/// A keepalive is never executed, and what is executed is what its frame
/// carries, under the id that the shard frame carries.
pub proof fn executed_is_what_was_sent(buf: Seq<u8>, limits: ConnectionLimits, waited_nanos: u128)
    ensures
        stepped(buf, limits, waited_nanos).step matches StepView::Execute {
            is_write,
            shard_frame,
            original_clrid,
        } ==> {
            &&& decoded(buf) matches RouterDecode::Frame {
                frame_len,
                segment,
                is_write: writes,
                shard_frame: carried,
                clrid_offset,
                original_clrid: id,
            }
            &&& segment != KEEPALIVE_SEGMENT@
            &&& frame_len <= limits.max_frame_size
            &&& writes == is_write
            &&& carried == shard_frame
            &&& id == original_clrid
            &&& original_clrid == le32_at(shard_frame, 1)
        },
{
    decoded_frame_is_the_front(buf);
}

/// What a router sends in one frame.
pub struct RouterRequest {
    pub segment: Seq<char>,
    pub is_write: bool,
    pub shard: Seq<u8>,
}

impl RouterRequest {
    /// The request as bytes.
    pub open spec fn bytes(self) -> Seq<u8> {
        router_frame(self.segment, self.is_write, self.shard)
    }

    /// Whether a frame can carry the request within the limits.
    pub open spec fn fits(self, limits: ConnectionLimits) -> bool {
        can_be_routed(self.segment, self.shard) && self.bytes().len() <= limits.max_frame_size
    }

    /// The step that the request leads to.
    pub open spec fn step(self) -> StepView {
        if self.segment == KEEPALIVE_SEGMENT@ {
            StepView::Keepalive
        } else {
            StepView::Execute {
                is_write: self.is_write,
                shard_frame: self.shard,
                original_clrid: le32_at(self.shard, 1),
            }
        }
    }
}

/// The requests as bytes, one after the other.
pub open spec fn stream(requests: Seq<RouterRequest>) -> Seq<u8>
    decreases requests.len(),
{
    if requests.len() == 0 {
        Seq::empty()
    } else {
        requests[0].bytes() + stream(requests.drop_first())
    }
}

/// The first `n` steps on a buffer, and what they leave.
pub open spec fn steps(
    buf: Seq<u8>,
    limits: ConnectionLimits,
    waited_nanos: u128,
    n: nat,
) -> (Seq<StepView>, Seq<u8>)
    decreases n,
{
    if n == 0 {
        (Seq::empty(), buf)
    } else {
        let first = stepped(buf, limits, waited_nanos);
        let more = steps(first.rest, limits, waited_nanos, (n - 1) as nat);
        (seq![first.step] + more.0, more.1)
    }
}

/// One request is taken as it was sent, and what follows it stays.
#[verifier::spinoff_prover]
#[verifier::rlimit(40)]
proof fn request_is_taken(
    request: RouterRequest,
    tail: Seq<u8>,
    limits: ConnectionLimits,
    waited_nanos: u128,
)
    requires
        request.fits(limits),
        request.bytes().len() + tail.len() <= limits.max_buffer_size,
    ensures
        stepped(request.bytes() + tail, limits, waited_nanos).step == request.step(),
        stepped(request.bytes() + tail, limits, waited_nanos).rest == tail,
{
    router_frame_is_decoded(request.segment, request.is_write, request.shard, tail);
    let bytes = request.bytes();
    assert((bytes + tail).skip(bytes.len() as int) =~= tail);
}

/// Requests are taken in the order in which they were sent, each once and as
/// it was sent, keepalives aside, and what follows them stays.
#[verifier::spinoff_prover]
#[verifier::rlimit(40)]
pub proof fn requests_are_taken_in_order(
    requests: Seq<RouterRequest>,
    rest: Seq<u8>,
    limits: ConnectionLimits,
    waited_nanos: u128,
)
    requires
        forall|i: int| 0 <= i < requests.len() ==> (#[trigger] requests[i]).fits(limits),
        stream(requests).len() + rest.len() <= limits.max_buffer_size,
    ensures
        steps(stream(requests) + rest, limits, waited_nanos, requests.len()).0
            == requests.map_values(|r: RouterRequest| r.step()),
        steps(stream(requests) + rest, limits, waited_nanos, requests.len()).1 == rest,
    decreases requests.len(),
{
    let buf = stream(requests) + rest;
    if requests.len() == 0 {
        assert(buf =~= rest);
        assert(requests.map_values(|r: RouterRequest| r.step()) =~= Seq::empty());
    } else {
        let first = requests[0];
        let others = requests.drop_first();
        let tail = stream(others) + rest;
        assert(first.fits(limits));
        assert(buf =~= first.bytes() + tail);
        request_is_taken(first, tail, limits, waited_nanos);
        assert(stepped(buf, limits, waited_nanos).step == first.step());
        assert(stepped(buf, limits, waited_nanos).rest == tail);
        assert forall|i: int| 0 <= i < others.len() implies (#[trigger] others[i]).fits(limits) by {
            assert(others[i] == requests[i + 1]);
        }
        requests_are_taken_in_order(others, rest, limits, waited_nanos);
        assert(requests.map_values(|r: RouterRequest| r.step()) =~= seq![first.step()]
            + others.map_values(|r: RouterRequest| r.step()));
    }
}

/// Requests may arrive in pieces: while bytes are still to come, a step waits
/// for more and leaves what is there, or takes the first request as it was sent
/// and leaves what is there of the others.
#[verifier::spinoff_prover]
#[verifier::rlimit(40)]
pub proof fn requests_may_arrive_in_pieces(
    requests: Seq<RouterRequest>,
    arrived: Seq<u8>,
    unread: Seq<u8>,
    limits: ConnectionLimits,
    waited_nanos: u128,
)
    requires
        requests.len() > 0,
        forall|i: int| 0 <= i < requests.len() ==> (#[trigger] requests[i]).fits(limits),
        arrived + unread == stream(requests),
        arrived.len() <= limits.max_buffer_size,
        waited_nanos <= limits.frame_timeout_nanos,
    ensures
        ({
            let after = stepped(arrived, limits, waited_nanos);
            ||| after.step is ReadMore && after.rest == arrived && unread.len() > 0
            ||| after.step == requests[0].step() && after.rest + unread == stream(
                requests.drop_first(),
            )
        }),
{
    let first = requests[0];
    let front = first.bytes();
    let tail = stream(requests.drop_first());
    let all = front + tail;
    assert(first.fits(limits));
    assert(arrived + unread == all);
    if arrived.len() >= front.len() {
        let rest = arrived.skip(front.len() as int);
        assert(arrived =~= front + rest) by {
            assert forall|i: int| 0 <= i < front.len() implies arrived[i] == front[i] by {
                assert((arrived + unread)[i] == all[i]);
            }
        }
        router_frame_is_decoded(first.segment, first.is_write, first.shard, rest);
        assert(stepped(arrived, limits, waited_nanos).step == first.step());
        assert(rest + unread =~= all.skip(front.len() as int));
        assert(all.skip(front.len() as int) =~= tail);
    } else {
        router_frame_is_decoded(first.segment, first.is_write, first.shard, tail);
        if decoded(arrived) !is NeedMore {
            decoding_is_final(arrived, unread);
            decoded_frame_is_the_front(arrived);
        }
    }
}

/// Garbage without a magic byte is skipped in one step: the next frame is the
/// front of the buffer then.
pub proof fn garbage_is_skipped(
    garbage: Seq<u8>,
    tail: Seq<u8>,
    limits: ConnectionLimits,
    waited_nanos: u128,
)
    requires
        garbage.len() > 0,
        !garbage.contains(ROUTER_MAGIC),
        tail.len() > 0,
        tail[0] == ROUTER_MAGIC,
        5 <= garbage.len() + tail.len() <= limits.max_buffer_size,
    ensures
        stepped(garbage + tail, limits, waited_nanos).step == StepView::Resynced,
        stepped(garbage + tail, limits, waited_nanos).rest == tail,
{
    let buf = garbage + tail;
    assert(garbage.contains(garbage[0]));
    assert(buf[0] == garbage[0]);
    assert(decoded(buf) is Error);
    let past = buf.skip(1);
    let at = garbage.len() - 1;
    past.index_of_first_ensures(ROUTER_MAGIC);
    assert(past[at] == tail[0]);
    assert(past.contains(ROUTER_MAGIC));
    let found = past.index_of_first(ROUTER_MAGIC)->0;
    if found < at {
        assert(garbage[found + 1] == past[found]);
        assert(garbage.contains(ROUTER_MAGIC));
    }
    assert(past.skip(at) =~= tail);
}

/// A connection is not closed for want of a frame before its time is up, and
/// is closed once it is, while a frame is incomplete.
pub proof fn slow_connections_are_closed(link: RouterLink, buf: Seq<u8>, now_nanos: u128)
    ensures
        ({
            let after = stepped(buf, link.limits, link.waited(now_nanos));
            let late = now_nanos > link.last_frame_nanos + link.limits.frame_timeout_nanos;
            &&& after.counts.timeouts > 0 ==> late && after.step is Close
            &&& late && decoded(buf) is NeedMore && buf.len() <= link.limits.max_buffer_size
                ==> after.step is Close && after.counts.timeouts == 1
        }),
{
}

/// How many connections are open after `events`, of which each is an arrival,
/// where it is true, or a close.
pub open spec fn open_after_all(open: usize, max: usize, events: Seq<bool>) -> usize
    decreases events.len(),
{
    if events.len() == 0 {
        open
    } else {
        open_after(open_after_all(open, max, events.drop_last()), max, events.last())
    }
}

/// Whether only connections that are open close.
pub open spec fn closes_what_is_open(open: usize, max: usize, events: Seq<bool>) -> bool
    decreases events.len(),
{
    events.len() == 0 || {
        &&& closes_what_is_open(open, max, events.drop_last())
        &&& !events.last() ==> open_after_all(open, max, events.drop_last()) > 0
    }
}

/// No more connections are open than the settings allow, whatever arrives and
/// closes.
pub proof fn connections_stay_below_the_limit(open: usize, max: usize, events: Seq<bool>)
    requires
        open <= max,
        closes_what_is_open(open, max, events),
    ensures
        open_after_all(open, max, events) <= max,
    decreases events.len(),
{
    if events.len() > 0 {
        connections_stay_below_the_limit(open, max, events.drop_last());
    }
}

/// What happens on a connection: a read, or a step on what the buffer holds,
/// which, where it executes a request, is followed by its answer.
pub enum LinkEvent {
    Read(ReadOutcome),
    Step {
        buf: Seq<u8>,
        waited_nanos: u128,
        /// The shard's response, if there is one and a request is executed.
        response: Option<Seq<u8>>,
    },
}

impl LinkEvent {
    /// Whether the event is a step that executes a request.
    pub open spec fn executes(self, limits: ConnectionLimits) -> bool {
        self matches LinkEvent::Step { buf, waited_nanos, response } && stepped(
            buf,
            limits,
            waited_nanos,
        ).step is Execute
    }

    /// What the event adds to the counter that `counter` picks.
    pub open spec fn counts(
        self,
        limits: ConnectionLimits,
        counter: spec_fn(BridgeMetrics) -> u64,
    ) -> int {
        match self {
            LinkEvent::Read(outcome) => counter(read_counts(outcome)) as int,
            LinkEvent::Step { buf, waited_nanos, response } => {
                counter(stepped(buf, limits, waited_nanos).counts) + if self.executes(limits) {
                    counter(answer_counts(response)) as int
                } else {
                    0
                }
            },
        }
    }

    /// How many bytes the event read.
    pub open spec fn bytes_read(self) -> int {
        match self {
            LinkEvent::Read(ReadOutcome::Received(n)) => n as int,
            _ => 0,
        }
    }

    /// How long the response is that the event sent.
    pub open spec fn bytes_answered(self, limits: ConnectionLimits) -> int {
        match self {
            LinkEvent::Step { buf, waited_nanos, response: Some(bytes) } => if self.executes(
                limits,
            ) {
                bytes.len() as int
            } else {
                0
            },
            _ => 0,
        }
    }
}

/// How much a counter grows over the events of a connection.
pub open spec fn counted(
    events: Seq<LinkEvent>,
    limits: ConnectionLimits,
    counter: spec_fn(BridgeMetrics) -> u64,
) -> int
    decreases events.len(),
{
    if events.len() == 0 {
        0
    } else {
        counted(events.drop_last(), limits, counter) + events.last().counts(limits, counter)
    }
}

/// How many bytes the events of a connection read.
pub open spec fn all_bytes_read(events: Seq<LinkEvent>) -> int
    decreases events.len(),
{
    if events.len() == 0 {
        0
    } else {
        all_bytes_read(events.drop_last()) + events.last().bytes_read()
    }
}

/// How long the responses are that the events of a connection sent, in all.
pub open spec fn all_bytes_answered(events: Seq<LinkEvent>, limits: ConnectionLimits) -> int
    decreases events.len(),
{
    if events.len() == 0 {
        0
    } else {
        all_bytes_answered(events.drop_last(), limits) + events.last().bytes_answered(limits)
    }
}

/// Over a connection, every frame that was received was a keepalive, was
/// executed or failed; no more searches than errors are counted; and the bytes
/// that are counted are those that were read and those of the responses.
pub proof fn counts_add_up(events: Seq<LinkEvent>, limits: ConnectionLimits)
    requires
        forall|i: int|
            0 <= i < events.len() ==> (#[trigger] events[i]).bytes_answered(limits) <= u64::MAX,
    ensures
        counted(events, limits, |c: BridgeMetrics| c.frames_received) == counted(
            events,
            limits,
            |c: BridgeMetrics| c.keepalives_received,
        ) + counted(events, limits, |c: BridgeMetrics| c.frames_executed) + counted(
            events,
            limits,
            |c: BridgeMetrics| c.execute_errors,
        ),
        counted(events, limits, |c: BridgeMetrics| c.resyncs) <= counted(
            events,
            limits,
            |c: BridgeMetrics| c.client_errors,
        ),
        counted(events, limits, |c: BridgeMetrics| c.bytes_received) == all_bytes_read(events),
        counted(events, limits, |c: BridgeMetrics| c.bytes_sent) == all_bytes_answered(
            events,
            limits,
        ),
    decreases events.len(),
{
    if events.len() > 0 {
        let before = events.drop_last();
        assert forall|i: int| 0 <= i < before.len() implies (#[trigger] before[i]).bytes_answered(
            limits,
        ) <= u64::MAX by {
            assert(before[i] == events[i]);
        }
        counts_add_up(before, limits);
        assert(events[events.len() - 1].bytes_answered(limits) <= u64::MAX);
    }
}

/// A request that fails is answered: the error response is read as one, under
/// the id that the request's frame carried.
pub proof fn failed_request_is_answered(
    request: RouterRequest,
    rest: Seq<u8>,
    limits: ConnectionLimits,
    waited_nanos: u128,
)
    requires
        request.fits(limits),
        request.segment != KEEPALIVE_SEGMENT@,
        request.bytes().len() + rest.len() <= limits.max_buffer_size,
    ensures
        stepped(request.bytes() + rest, limits, waited_nanos).step matches StepView::Execute {
            is_write,
            shard_frame: frame,
            original_clrid,
        } && original_clrid == le32_at(request.shard, 1) && drained(
            shard_frame(original_clrid, error_payload(4)),
            true,
        ) == DrainView::Frame(
            Header { clr_id: le32_at(request.shard, 1), status_len: 5, field_cnt: 1 },
            shard_frame(original_clrid, error_payload(4)),
        ),
{
    router_frame_is_decoded(request.segment, request.is_write, request.shard, rest);
    let id = le32_at(request.shard, 1);
    error_response_is_read(id, 4, Seq::empty(), true);
    let response = shard_frame(id, error_payload(4));
    assert(response + Seq::empty() =~= response);
}

} // verus!
