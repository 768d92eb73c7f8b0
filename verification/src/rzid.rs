//! Talking to RzID: what is sent, and what is made of the replies.

use crate::error::{ErrorView, RZError};
use crate::http::{is_success, success, HttpReply};
use crate::text::{
    joined, starts_with, trim_end_slashes, trim_prefixes, without_end_slashes, without_prefixes,
};
use vstd::prelude::*;

verus! {

/// What a bridge registers itself with.
#[derive(Debug)]
pub struct RegisterRequest {
    pub kind: String,
    pub id: String,
    pub zone: String,
    pub shard: Option<String>,
}

/// The nodes of a shard, as RzID lists them.
#[derive(Debug)]
pub struct NodesResponse {
    pub nodes: Vec<String>,
}

/// Where RzID is asked: always by `http`, without slashes at the end.
pub open spec fn rzid_base(address: Seq<char>) -> Seq<char> {
    if "http://"@.is_prefix_of(address) {
        without_end_slashes(address)
    } else {
        "http://"@ + without_end_slashes(without_prefixes(address, "https://"@))
    }
}

/// What a bridge says of itself to RzID.
#[derive(Debug)]
pub struct RzidClient {
    pub base_url: String,
    pub bridge_id: String,
    pub shard_id: String,
    pub zone_id: String,
}

/// The error for a reply that does not stand for success.
pub open spec fn refused(what: Seq<char>, status: Seq<char>, text: Seq<char>) -> ErrorView {
    ErrorView::Http(what + status + ": "@ + text)
}

/// The error for a reply that does not stand for success.
fn refusal(what: &str, status: String, text: String) -> (error: RZError)
    ensures
        error@ == refused(what@, status@, text@),
{
    let mut message: String = joined(what, status.as_str());
    message.append(": ");
    message.append(text.as_str());
    RZError::Http(message)
}

impl RzidClient {
    /// A client for RzID at `rzid_addr`.
    pub fn new(rzid_addr: &str, bridge_id: &str, shard_id: &str, zone_id: &str) -> (client: Self)
        ensures
            client.base_url@ == rzid_base(rzid_addr@),
            client.base_url@ == if "http://"@.is_prefix_of(rzid_addr@) {
                without_end_slashes(rzid_addr@)
            } else {
                "http://"@ + without_end_slashes(without_prefixes(rzid_addr@, "https://"@))
            },
            client.bridge_id@ == bridge_id@,
            client.shard_id@ == shard_id@,
            client.zone_id@ == zone_id@,
    {
        let base_url: String = if starts_with(rzid_addr, "http://") {
            trim_end_slashes(rzid_addr)
        } else {
            let clean: String = trim_prefixes(rzid_addr, "https://");
            joined("http://", trim_end_slashes(clean.as_str()).as_str())
        };
        RzidClient {
            base_url,
            bridge_id: bridge_id.to_owned(),
            shard_id: shard_id.to_owned(),
            zone_id: zone_id.to_owned(),
        }
    }

    /// Where a heartbeat is sent.
    pub fn register_url(&self) -> (url: String)
        ensures
            url@ == self.base_url@ + "/register"@,
    {
        joined(self.base_url.as_str(), "/register")
    }

    /// What a heartbeat says.
    pub fn register_request(&self) -> (request: RegisterRequest)
        ensures
            request.kind@ == "bridge"@,
            request.id@ == self.bridge_id@,
            request.zone@ == self.zone_id@,
            request.shard matches Some(shard) && shard@ == self.shard_id@,
    {
        RegisterRequest {
            kind: "bridge".to_owned(),
            id: self.bridge_id.clone(),
            zone: self.zone_id.clone(),
            shard: Some(self.shard_id.clone()),
        }
    }

    /// What the reply to a heartbeat means.
    pub fn send_heartbeat(&self, reply: HttpReply<()>) -> (outcome: Result<(), RZError>)
        ensures
            match reply {
                HttpReply::Failed(e) => outcome matches Err(error) && error@ == ErrorView::Http(
                    "Failed to send heartbeat to RZID: "@ + e@,
                ),
                HttpReply::Replied { code, status, text, parsed } => if success(code) {
                    outcome is Ok
                } else {
                    outcome matches Err(error) && error@ == refused(
                        "RZID heartbeat returned "@,
                        status@,
                        text@,
                    )
                },
            },
    {
        match reply {
            HttpReply::Failed(e) => Err(
                RZError::Http(joined("Failed to send heartbeat to RZID: ", e.as_str())),
            ),
            HttpReply::Replied { code, status, text, parsed: _ } => {
                if is_success(code) {
                    Ok(())
                } else {
                    Err(refusal("RZID heartbeat returned ", status, text))
                }
            },
        }
    }

    /// Where the nodes of the shard are listed.
    pub fn nodes_url(&self) -> (url: String)
        ensures
            url@ == self.base_url@ + "/shards/"@ + self.shard_id@ + "/nodes"@,
    {
        let mut url: String = joined(self.base_url.as_str(), "/shards/");
        url.append(self.shard_id.as_str());
        url.append("/nodes");
        url
    }

    /// What the reply to the query for the shard's nodes means.
    pub fn fetch_shard_nodes(&self, reply: HttpReply<NodesResponse>) -> (outcome: Result<
        Vec<String>,
        RZError,
    >)
        ensures
            match reply {
                HttpReply::Failed(e) => outcome matches Err(error) && error@ == ErrorView::Http(
                    "Failed to fetch shard nodes from RZID: "@ + e@,
                ),
                HttpReply::Replied { code, status, text, parsed } => if !success(code) {
                    outcome matches Err(error) && error@ == refused(
                        "RZID nodes query returned "@,
                        status@,
                        text@,
                    )
                } else {
                    match parsed {
                        Ok(response) => outcome == Ok::<Vec<String>, RZError>(response.nodes),
                        Err(e) => outcome matches Err(error) && error@ == ErrorView::Http(
                            "Failed to parse nodes response: "@ + e@,
                        ),
                    }
                },
            },
    {
        match reply {
            HttpReply::Failed(e) => Err(
                RZError::Http(joined("Failed to fetch shard nodes from RZID: ", e.as_str())),
            ),
            HttpReply::Replied { code, status, text, parsed } => {
                if !is_success(code) {
                    return Err(refusal("RZID nodes query returned ", status, text));
                }
                match parsed {
                    Ok(response) => Ok(response.nodes),
                    Err(e) => Err(
                        RZError::Http(joined("Failed to parse nodes response: ", e.as_str())),
                    ),
                }
            },
        }
    }
}

} // verus!
