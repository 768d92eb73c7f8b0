//! From node ids to hostnames, by way of RzPoint.

use crate::error::{ErrorView, RZError};
use crate::http::{is_success, success, HttpReply};
use crate::text::{joined, starts_with, trim, trim_end_slashes, trimmed, without_end_slashes};
use vstd::prelude::*;

verus! {

/// How often RzPoint is asked for one node.
pub const RESOLVE_ATTEMPTS: u32 = 3;

/// Where RzPoint is asked: the address without slashes at its end, with the
/// scheme `http` where it has none.
pub open spec fn resolver_base(address: Seq<char>) -> Seq<char> {
    if "http://"@.is_prefix_of(address) || "https://"@.is_prefix_of(address) {
        without_end_slashes(address)
    } else {
        "http://"@ + without_end_slashes(address)
    }
}

/// Resolves the node ids of one shard.
#[derive(Debug)]
pub struct RzPointResolver {
    pub base_url: String,
    pub shard_id: String,
}

impl RzPointResolver {
    /// A resolver that asks RzPoint at `rzpoint_address`.
    pub fn new(rzpoint_address: &str, shard_id: &str) -> (resolver: Self)
        ensures
            resolver.base_url@ == resolver_base(rzpoint_address@),
            resolver.base_url@ == (if "http://"@.is_prefix_of(rzpoint_address@)
                || "https://"@.is_prefix_of(rzpoint_address@) {
                ""@
            } else {
                "http://"@
            }) + without_end_slashes(rzpoint_address@),
            resolver.shard_id@ == shard_id@,
    {
        proof {
            reveal_strlit("");
            assert(""@ + without_end_slashes(rzpoint_address@) =~= without_end_slashes(
                rzpoint_address@,
            ));
        }
        let address: String = trim_end_slashes(rzpoint_address);
        let base_url: String = if starts_with(rzpoint_address, "http://") || starts_with(
            rzpoint_address,
            "https://",
        ) {
            address
        } else {
            joined("http://", address.as_str())
        };
        RzPointResolver { base_url, shard_id: shard_id.to_owned() }
    }

    /// The URL that answers for `node_id`.
    pub fn node_url(&self, node_id: &str) -> (url: String)
        ensures
            url@ == self.base_url@ + "/shards/"@ + self.shard_id@ + "/nodes/"@ + node_id@,
    {
        let mut url: String = joined(self.base_url.as_str(), "/shards/");
        url.append(self.shard_id.as_str());
        url.append("/nodes/");
        url.append(node_id);
        url
    }

    /// Starts to resolve `node_id`.
    pub fn resolve(&self, node_id: &str) -> (resolution: Resolution)
        ensures
            resolution.node_id@ == node_id@,
            resolution.attempt == 0,
            resolution.url@ == self.base_url@ + "/shards/"@ + self.shard_id@ + "/nodes/"@ + node_id@,
    {
        Resolution { node_id: node_id.to_owned(), url: self.node_url(node_id), attempt: 0 }
    }
}

/// A node id that is being resolved.
#[derive(Debug)]
pub struct Resolution {
    pub node_id: String,
    /// What to ask.
    pub url: String,
    /// How many attempts failed.
    pub attempt: u32,
}

/// What follows a reply of RzPoint.
#[derive(Debug)]
pub enum ResolveStep {
    /// The hostname, or why there is none.
    Done(Result<String, RZError>),
    /// Wait that many milliseconds, then ask again.
    RetryAfter(u64),
}

/// A [`ResolveStep`] over plain values.
pub enum ResolveView {
    Found(Seq<char>),
    Failed(ErrorView),
    RetryAfter(u64),
}

impl View for ResolveStep {
    type V = ResolveView;

    open spec fn view(&self) -> ResolveView {
        match *self {
            ResolveStep::Done(Ok(host)) => ResolveView::Found(host@),
            ResolveStep::Done(Err(e)) => ResolveView::Failed(e@),
            ResolveStep::RetryAfter(ms) => ResolveView::RetryAfter(ms),
        }
    }
}

/// What follows a failure that may pass, at attempt `attempt`: a longer wait
/// each time, and the end after the third.
pub open spec fn resolve_retried(attempt: u32, why: Seq<char>) -> ResolveView {
    if attempt + 1 >= RESOLVE_ATTEMPTS {
        ResolveView::Failed(ErrorView::Resolver(why))
    } else {
        ResolveView::RetryAfter((100 * (attempt + 1)) as u64)
    }
}

/// What follows a reply at attempt `attempt`: success gives the body without
/// white space around it, 404 and an unreadable body end the matter, and
/// anything else is tried again.
pub open spec fn resolve_reply(
    node_id: Seq<char>,
    attempt: u32,
    reply: HttpReply<String>,
) -> ResolveView {
    match reply {
        HttpReply::Failed(e) => resolve_retried(attempt, "Request failed: "@ + e@),
        HttpReply::Replied { code, status, text, parsed } => if success(code) {
            match parsed {
                Ok(body) => ResolveView::Found(trimmed(body@)),
                Err(e) => ResolveView::Failed(
                    ErrorView::Resolver("Failed to read response: "@ + e@),
                ),
            }
        } else if code == 404 {
            ResolveView::Failed(ErrorView::Resolver("Node "@ + node_id + " not found"@))
        } else {
            resolve_retried(attempt, "HTTP status: "@ + status@)
        },
    }
}

/// Whether a reply is a failure that may pass.
pub open spec fn may_pass(reply: HttpReply<String>) -> bool {
    match reply {
        HttpReply::Failed(_) => true,
        HttpReply::Replied { code, status, text, parsed } => !success(code) && code != 404,
    }
}

impl Resolution {
    /// Decides after a failure that may pass.
    fn retry(&mut self, why: String) -> (step: ResolveStep)
        requires
            old(self).attempt < RESOLVE_ATTEMPTS,
        ensures
            step@ == resolve_retried(old(self).attempt, why@),
            final(self).node_id == old(self).node_id,
            final(self).url == old(self).url,
            final(self).attempt == old(self).attempt + 1,
    {
        self.attempt = self.attempt + 1;
        if self.attempt >= RESOLVE_ATTEMPTS {
            ResolveStep::Done(Err(RZError::Resolver(why)))
        } else {
            ResolveStep::RetryAfter(100 * self.attempt as u64)
        }
    }

    /// Decides after a reply of RzPoint.
    pub fn replied(&mut self, reply: HttpReply<String>) -> (step: ResolveStep)
        requires
            old(self).attempt < RESOLVE_ATTEMPTS,
        ensures
            step@ == resolve_reply(old(self).node_id@, old(self).attempt, reply),
            final(self).node_id == old(self).node_id,
            final(self).url == old(self).url,
            final(self).attempt == old(self).attempt + if may_pass(reply) {
                1int
            } else {
                0
            },
            step is RetryAfter ==> final(self).attempt < RESOLVE_ATTEMPTS,
            step is RetryAfter <==> old(self).attempt < 2 && match reply {
                HttpReply::Failed(_) => true,
                HttpReply::Replied { code, status, text, parsed } => code < 200 || code >= 300
                    && code != 404,
            },
            step matches ResolveStep::RetryAfter(ms) ==> ms == 100 * (old(self).attempt + 1),
    {
        match reply {
            HttpReply::Failed(e) => self.retry(joined("Request failed: ", e.as_str())),
            HttpReply::Replied { code, status, text: _, parsed } => {
                if is_success(code) {
                    match parsed {
                        Ok(body) => ResolveStep::Done(Ok(trim(body.as_str()))),
                        Err(e) => ResolveStep::Done(
                            Err(RZError::Resolver(joined("Failed to read response: ", e.as_str()))),
                        ),
                    }
                } else if code == 404 {
                    let mut why: String = joined("Node ", self.node_id.as_str());
                    why.append(" not found");
                    ResolveStep::Done(Err(RZError::Resolver(why)))
                } else {
                    self.retry(joined("HTTP status: ", status.as_str()))
                }
            },
        }
    }
}

} // verus!
