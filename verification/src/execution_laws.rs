//! What holds of a request on its way through the cluster as a whole.

use crate::codec::{le32_at, le32_is_read_back, le32_is_written_back, with_le32};
use crate::error::ErrorView;
use crate::execution::{
    answered, final_error, is_request, retried, Failure, RetryView, MAX_ATTEMPTS,
};
use crate::protocol::shard_frame;
use crate::protocol_laws::payload_is_framed;
use vstd::prelude::*;

verus! {

/// Putting an id in a frame changes nothing but the id.
pub proof fn only_the_id_changes(frame: Seq<u8>, clrid: u32)
    requires
        is_request(frame),
    ensures
        is_request(with_le32(frame, 1, clrid)),
        with_le32(frame, 1, clrid).len() == frame.len(),
        le32_at(with_le32(frame, 1, clrid), 1) == clrid,
        with_le32(frame, 1, clrid).take(1) == frame.take(1),
        with_le32(frame, 1, clrid).skip(5) == frame.skip(5),
{
    le32_is_read_back(clrid, frame.take(1), frame.skip(5));
    assert(with_le32(frame, 1, clrid).take(1) =~= frame.take(1));
    assert(with_le32(frame, 1, clrid).skip(5) =~= frame.skip(5));
    assert(with_le32(frame, 1, clrid)[0] == frame.take(1)[0]);
}

/// A request is a frame that has room for its header and starts with the magic
/// byte of shard frames; what follows the header does not matter.
pub proof fn any_payload_is_requested(clrid: u32, payload: Seq<u8>, bytes: Seq<u8>)
    ensures
        is_request(shard_frame(clrid, payload)),
        is_request(bytes) <==> bytes.len() >= 9 && bytes[0] == 0xFF,
{
    payload_is_framed(clrid, payload);
}

/// A failure is retried twice, after 100 and then 150 milliseconds, whatever it
/// was. The third ends the request: for want of a connection with the node that
/// a write or a read needs, else as a timeout.
pub proof fn failures_are_retried_twice(is_write: bool, failure: Failure)
    ensures
        retried(is_write, failure, 1) == RetryView::After(100),
        retried(is_write, failure, 2) == RetryView::After(150),
        failure is NoConnection && is_write ==> retried(is_write, failure, 3) == RetryView::GiveUp(
            ErrorView::NoLeaderAvailable,
        ),
        failure is NoConnection && !is_write ==> retried(is_write, failure, 3)
            == RetryView::GiveUp(ErrorView::NoFollowerNodeAvailable),
        failure !is NoConnection ==> retried(is_write, failure, 3) == RetryView::GiveUp(
            ErrorView::Timeout,
        ),
{
}

/// The id that a request came with is the id that its response goes back
/// under: where the node answers a frame as it got it, the router gets it as
/// the router sent it, whichever ids the attempts used.
pub proof fn own_id_comes_back(frame: Seq<u8>, first_id: u32, last_id: u32)
    requires
        is_request(frame),
    ensures
        with_le32(with_le32(frame, 1, first_id), 1, last_id) == with_le32(frame, 1, last_id),
        answered(with_le32(frame, 1, last_id), le32_at(frame, 1)) == frame,
{
    let once = with_le32(frame, 1, first_id);
    only_the_id_changes(frame, first_id);
    assert(with_le32(once, 1, last_id) =~= with_le32(frame, 1, last_id));
    let sent = with_le32(frame, 1, last_id);
    only_the_id_changes(frame, last_id);
    le32_is_written_back(frame, 1);
    assert(answered(sent, le32_at(frame, 1)) =~= frame);
}

/// A response goes back under the request's id and is otherwise as the node
/// sent it; one that is too short for an id goes back as it is.
pub proof fn response_keeps_its_content(response: Seq<u8>, clrid: u32)
    ensures
        answered(response, clrid).len() == response.len(),
        response.len() < 9 ==> answered(response, clrid) == response,
        response.len() >= 9 ==> le32_at(answered(response, clrid), 1) == clrid
            && answered(response, clrid)[0] == response[0] && answered(response, clrid).skip(5)
            == response.skip(5),
{
    if response.len() >= 9 {
        le32_is_read_back(clrid, response.take(1), response.skip(5));
        assert(answered(response, clrid).skip(5) =~= response.skip(5));
        assert(answered(response, clrid)[0] == response.take(1)[0]);
    }
}

/// What an attempt comes to.
pub enum Attempt {
    Failed(Failure),
    Answered(Seq<u8>),
}

/// What a request comes to, where the attempts go that way and `failed` of
/// them failed before; none, where it would be tried again.
pub open spec fn ran(is_write: bool, clrid: u32, attempts: Seq<Attempt>, failed: int) -> Option<
    Result<Seq<u8>, ErrorView>,
>
    decreases attempts.len(),
{
    if attempts.len() == 0 {
        None
    } else {
        match attempts[0] {
            Attempt::Answered(response) => Some(Ok(answered(response, clrid))),
            Attempt::Failed(failure) => match retried(is_write, failure, failed + 1) {
                RetryView::GiveUp(e) => Some(Err(e)),
                RetryView::After(_) => ran(is_write, clrid, attempts.drop_first(), failed + 1),
            },
        }
    }
}

/// A request is tried three times at most: the first three attempts decide.
pub proof fn three_attempts_decide(is_write: bool, clrid: u32, attempts: Seq<Attempt>)
    requires
        attempts.len() >= MAX_ATTEMPTS,
    ensures
        ran(is_write, clrid, attempts, 0) is Some,
        ran(is_write, clrid, attempts, 0) == ran(is_write, clrid, attempts.take(3), 0),
{
    reveal_with_fuel(ran, 4);
    let few = attempts.take(3);
    assert(few[0] == attempts[0]);
    assert(few.drop_first()[0] == attempts.drop_first()[0]);
    assert(few.drop_first().drop_first()[0] == attempts.drop_first().drop_first()[0]);
}

/// The first response within three attempts is the answer.
pub proof fn first_response_is_the_answer(
    is_write: bool,
    clrid: u32,
    attempts: Seq<Attempt>,
    k: int,
)
    requires
        0 <= k < MAX_ATTEMPTS,
        k < attempts.len(),
        attempts[k] is Answered,
        forall|i: int| 0 <= i < k ==> (#[trigger] attempts[i]) is Failed,
    ensures
        ran(is_write, clrid, attempts, 0) == Some(
            Ok::<Seq<u8>, ErrorView>(answered(attempts[k]->Answered_0, clrid)),
        ),
{
    reveal_with_fuel(ran, 4);
    if k > 0 {
        assert(attempts[0] is Failed);
        assert(attempts.drop_first()[0] == attempts[1]);
    }
    if k > 1 {
        assert(attempts[1] is Failed);
        assert(attempts.drop_first().drop_first()[0] == attempts[2]);
    }
}

/// After three failures the third one's error is the answer.
pub proof fn third_failure_is_the_answer(is_write: bool, clrid: u32, attempts: Seq<Attempt>)
    requires
        attempts.len() >= MAX_ATTEMPTS,
        attempts[0] is Failed,
        attempts[1] is Failed,
        attempts[2] is Failed,
    ensures
        ran(is_write, clrid, attempts, 0) == Some(
            Err::<Seq<u8>, ErrorView>(final_error(is_write, attempts[2]->Failed_0)),
        ),
{
    reveal_with_fuel(ran, 4);
    assert(attempts.drop_first()[0] == attempts[1]);
    assert(attempts.drop_first().drop_first()[0] == attempts[2]);
}

} // verus!
