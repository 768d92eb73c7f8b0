//! One request on its way through the cluster: it travels under a correlation
//! id of the bridge, is tried up to three times, and its response goes back
//! under the id that it came with.

use crate::buffer::{buffer_bytes_mut, buffer_freeze, buffer_from, chunk_bytes, frozen};
use crate::cluster_handler::{ClusterHandler, Pick};
use crate::codec::{le32_at, read_le32, with_le32, write_le32};
use crate::error::{ErrorView, RZError};
use crate::pool::Connection;
use crate::protocol::SHARD_MAGIC;
use bytes::{Bytes, BytesMut};
use vstd::prelude::*;

verus! {

/// How often a request is tried.
pub const MAX_ATTEMPTS: u32 = 3;

/// A request under way.
#[derive(Debug)]
pub struct Execution {
    /// Whether the request goes to the leader.
    pub is_write: bool,
    /// The shard frame, under the id of the last attempt.
    pub shard_frame: Vec<u8>,
    /// The id that the request came with.
    pub original_clrid: u32,
    /// How many attempts failed.
    pub attempts: u32,
}

/// Why an attempt failed.
#[derive(Debug, Clone, Copy)]
pub enum Failure {
    /// There was no open connection to take.
    NoConnection,
    /// The connection did not take the frame.
    SendFailed,
    /// The connection closed, or the time ran out, without a response.
    NoResponse,
}

/// How an attempt starts.
#[derive(Debug)]
pub enum AttemptStart {
    /// Send the request over this connection.
    Send(Connection),
    /// There is no connection to take.
    Failed(Retry),
}

/// What follows a failed attempt.
#[derive(Debug)]
pub enum Retry {
    /// Wait that many milliseconds, then try again.
    After(u64),
    /// Give up.
    GiveUp(RZError),
}

/// A [`Retry`] over plain values.
pub enum RetryView {
    After(u64),
    GiveUp(ErrorView),
}

impl View for Retry {
    type V = RetryView;

    open spec fn view(&self) -> RetryView {
        match *self {
            Retry::After(ms) => RetryView::After(ms),
            Retry::GiveUp(e) => RetryView::GiveUp(e@),
        }
    }
}

/// Whether the bytes can be a shard frame: long enough, and with its magic.
pub open spec fn is_request(frame: Seq<u8>) -> bool {
    frame.len() >= 9 && frame[0] == SHARD_MAGIC
}

/// The error of a request that is given up.
pub open spec fn final_error(is_write: bool, failure: Failure) -> ErrorView {
    match failure {
        Failure::NoConnection => if is_write {
            ErrorView::NoLeaderAvailable
        } else {
            ErrorView::NoFollowerNodeAvailable
        },
        Failure::SendFailed => ErrorView::Timeout,
        Failure::NoResponse => ErrorView::Timeout,
    }
}

/// What follows a failure that makes `attempts` in all: a longer wait each
/// time, and the end after the third.
pub open spec fn retried(is_write: bool, failure: Failure, attempts: int) -> RetryView {
    if attempts >= MAX_ATTEMPTS {
        RetryView::GiveUp(final_error(is_write, failure))
    } else {
        RetryView::After((50 * (attempts + 1)) as u64)
    }
}

/// A response under the id `clrid`. One that is too short for an id stays as
/// it is.
pub open spec fn answered(response: Seq<u8>, clrid: u32) -> Seq<u8> {
    if response.len() >= 9 {
        with_le32(response, 1, clrid)
    } else {
        response
    }
}

impl ClusterHandler {
    /// Starts to execute a request, which must be a whole shard frame.
    pub fn execute(&self, is_write: bool, shard_frame: Vec<u8>) -> (started: Result<
        Execution,
        RZError,
    >)
        ensures
            started is Ok <==> is_request(shard_frame@),
            started is Ok <==> shard_frame@.len() >= 9 && shard_frame@[0] == 0xFF,
            started matches Ok(run) ==> {
                &&& run.wf()
                &&& run.is_write == is_write
                &&& run.shard_frame@ == shard_frame@
                &&& run.original_clrid == le32_at(shard_frame@, 1)
                &&& run.attempts == 0
            },
            started matches Err(e) ==> e@ == ErrorView::Validation("invalid shard frame"@),
    {
        if shard_frame.len() < 9 || shard_frame[0] != SHARD_MAGIC {
            return Err(RZError::Validation("invalid shard frame".to_owned()));
        }
        let original_clrid: u32 = read_le32(shard_frame.as_slice(), 1);
        Ok(Execution { is_write, shard_frame, original_clrid, attempts: 0 })
    }

    /// Starts an attempt: takes the connection whose turn it is, and where
    /// there is none, counts a failure. The second value lists the closed
    /// connections that were met.
    pub fn next_attempt(&mut self, run: &mut Execution) -> (started: (
        AttemptStart,
        Vec<Connection>,
    ))
        requires
            old(self).wf(),
            old(run).wf(),
        ensures
            final(self).wf(),
            final(self)@ == old(self)@.pick(old(run).is_write).after,
            started.1@ == old(self)@.pick(old(run).is_write).closed,
            match old(self)@.pick(old(run).is_write).conn {
                Some(conn) => {
                    &&& started.0 == AttemptStart::Send(conn)
                    &&& *final(run) == *old(run)
                },
                None => {
                    &&& started.0 matches AttemptStart::Failed(retry)
                    &&& retry@ == retried(
                        old(run).is_write,
                        Failure::NoConnection,
                        old(run).attempts + 1,
                    )
                    &&& retry is After ==> final(run).wf()
                    &&& *final(run) == (Execution {
                        attempts: (old(run).attempts + 1) as u32,
                        ..*old(run)
                    })
                },
            },
    {
        let pick: Pick = self.next_conn(run.is_write);
        match pick.conn {
            Some(conn) => (AttemptStart::Send(conn), pick.closed),
            None => (AttemptStart::Failed(run.failed(Failure::NoConnection)), pick.closed),
        }
    }
}

impl Execution {
    /// What holds of a request that is not given up.
    pub open spec fn wf(self) -> bool {
        is_request(self.shard_frame@) && self.attempts < MAX_ATTEMPTS
    }

    /// Puts the id of the next attempt in the frame, and returns the frame to
    /// send.
    pub fn under(&mut self, new_clrid: u32) -> (frame: Vec<u8>)
        requires
            old(self).wf(),
        ensures
            frame@ == with_le32(old(self).shard_frame@, 1, new_clrid),
            final(self).wf(),
            final(self).shard_frame@ == frame@,
            final(self).is_write == old(self).is_write,
            final(self).original_clrid == old(self).original_clrid,
            final(self).attempts == old(self).attempts,
    {
        write_le32(self.shard_frame.as_mut_slice(), 1, new_clrid);
        let frame: Vec<u8> = self.shard_frame.clone();
        proof {
            assert(frame@ =~= self.shard_frame@);
        }
        frame
    }

    /// Decides after a failed attempt.
    pub fn failed(&mut self, failure: Failure) -> (retry: Retry)
        requires
            old(self).wf(),
        ensures
            retry@ == retried(old(self).is_write, failure, old(self).attempts + 1),
            retry is After <==> old(self).attempts < 2,
            retry matches Retry::After(ms) ==> ms == 50 * (old(self).attempts + 2),
            retry is After ==> final(self).wf(),
            final(self).attempts == old(self).attempts + 1,
            final(self).shard_frame == old(self).shard_frame,
            final(self).is_write == old(self).is_write,
            final(self).original_clrid == old(self).original_clrid,
    {
        self.attempts = self.attempts + 1;
        if self.attempts < MAX_ATTEMPTS {
            return Retry::After(50 * (self.attempts as u64 + 1));
        }
        let error: RZError = match failure {
            Failure::NoConnection => if self.is_write {
                RZError::NoLeaderAvailable
            } else {
                RZError::NoFollowerNodeAvailable
            },
            Failure::SendFailed => RZError::Timeout,
            Failure::NoResponse => RZError::Timeout,
        };
        Retry::GiveUp(error)
    }

    /// Puts the request's own id in a response.
    pub fn finish(&self, response: Bytes) -> (restored: Bytes)
        ensures
            frozen(restored) == answered(frozen(response), self.original_clrid),
    {
        if chunk_bytes(&response).len() >= 9 {
            let mut bytes: BytesMut = buffer_from(chunk_bytes(&response));
            write_le32(buffer_bytes_mut(&mut bytes), 1, self.original_clrid);
            buffer_freeze(bytes)
        } else {
            response
        }
    }
}

} // verus!
