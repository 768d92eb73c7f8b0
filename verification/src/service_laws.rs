//! What holds of the questions to RzID and RzPoint as a whole.

use crate::error::ErrorView;
use crate::http::{success, HttpReply};
use crate::resolver::{
    may_pass, resolve_reply, resolver_base, ResolveView, RESOLVE_ATTEMPTS,
};
use crate::pool::{closed_by, of_hosts, Connection};
use crate::protocol::ProtocolErrorView;
use crate::rzid::{refused, rzid_base};
use crate::text::{decimal, hex_byte, texts, trimmed, without_end_slashes, without_prefixes};
use vstd::prelude::*;

verus! {

/// Whether `text` has a character that is no slash.
pub open spec fn names_host(text: Seq<char>) -> bool {
    exists|i: int| 0 <= i < text.len() && #[trigger] text[i] != '/'
}

/// What is left of `text` once the slashes at its end are gone.
proof fn end_slashes_are_gone(text: Seq<char>)
    ensures
        without_end_slashes(text).is_prefix_of(text),
        without_end_slashes(text).len() > 0 ==> without_end_slashes(text).last() != '/',
        without_end_slashes(text).len() > 0 <==> names_host(text),
        without_end_slashes(without_end_slashes(text)) == without_end_slashes(text),
    decreases text.len(),
{
    if text.len() > 0 && text.last() == '/' {
        end_slashes_are_gone(text.drop_last());
        if names_host(text.drop_last()) {
            let i = choose|i: int|
                0 <= i < text.drop_last().len() && #[trigger] text.drop_last()[i] != '/';
            assert(text[i] != '/');
        }
        if names_host(text) {
            let i = choose|i: int| 0 <= i < text.len() && #[trigger] text[i] != '/';
            assert(text.drop_last()[i] != '/');
        }
    } else {
        assert(without_end_slashes(text) == text);
        if text.len() > 0 {
            assert(text[text.len() - 1] != '/');
        }
    }
}

/// Slashes at the end go wherever the text before them starts.
proof fn end_slashes_of_joined(a: Seq<char>, b: Seq<char>)
    requires
        names_host(b),
    ensures
        without_end_slashes(a + b) == a + without_end_slashes(b),
    decreases b.len(),
{
    if b.last() == '/' {
        let i = choose|i: int| 0 <= i < b.len() && #[trigger] b[i] != '/';
        assert(b.drop_last()[i] != '/');
        end_slashes_of_joined(a, b.drop_last());
        assert((a + b).drop_last() =~= a + b.drop_last());
    }
}

/// A scheme is read back from what it was put before.
proof fn scheme_is_a_prefix(scheme: Seq<char>, rest: Seq<char>)
    ensures
        scheme.is_prefix_of(scheme + rest),
        (scheme + rest).skip(scheme.len() as int) == rest,
{
    assert((scheme + rest).subrange(0, scheme.len() as int) =~= scheme);
    assert((scheme + rest).skip(scheme.len() as int) =~= rest);
}

/// No text starts with both schemes.
proof fn schemes_differ(rest: Seq<char>)
    ensures
        !"https://"@.is_prefix_of("http://"@ + rest),
        !"http://"@.is_prefix_of("https://"@ + rest),
{
    reveal_strlit("http://");
    reveal_strlit("https://");
    if "https://"@.is_prefix_of("http://"@ + rest) {
        assert("https://"@[4] == ("http://"@ + rest).subrange(0, 8)[4]);
    }
    if "http://"@.is_prefix_of("https://"@ + rest) {
        assert("http://"@[4] == ("https://"@ + rest).subrange(0, 7)[4]);
    }
}

/// RzPoint is asked by the scheme that its address has, or by `http` where it
/// has none; slashes at the end do not matter.
pub proof fn rzpoint_is_asked_by_its_scheme(host: Seq<char>)
    requires
        names_host(host),
        !"http://"@.is_prefix_of(host),
        !"https://"@.is_prefix_of(host),
    ensures
        resolver_base(host) == "http://"@ + without_end_slashes(host),
        resolver_base("http://"@ + host) == "http://"@ + without_end_slashes(host),
        resolver_base("https://"@ + host) == "https://"@ + without_end_slashes(host),
        without_end_slashes(host).len() > 0,
        without_end_slashes(host).last() != '/',
{
    end_slashes_are_gone(host);
    scheme_is_a_prefix("http://"@, host);
    scheme_is_a_prefix("https://"@, host);
    end_slashes_of_joined("http://"@, host);
    end_slashes_of_joined("https://"@, host);
}

/// RzID is asked by `http` at its host, whichever scheme its address has;
/// slashes at the end do not matter.
pub proof fn rzid_is_asked_by_http(host: Seq<char>)
    requires
        names_host(host),
        !"http://"@.is_prefix_of(host),
        !"https://"@.is_prefix_of(host),
    ensures
        rzid_base(host) == "http://"@ + without_end_slashes(host),
        rzid_base("http://"@ + host) == "http://"@ + without_end_slashes(host),
        rzid_base("https://"@ + host) == "http://"@ + without_end_slashes(host),
        without_end_slashes(host).len() > 0,
        without_end_slashes(host).last() != '/',
{
    reveal_strlit("https://");
    end_slashes_are_gone(host);
    scheme_is_a_prefix("http://"@, host);
    scheme_is_a_prefix("https://"@, host);
    schemes_differ(host);
    end_slashes_of_joined("http://"@, host);
    reveal_with_fuel(without_prefixes, 2);
}

/// A text that starts with a scheme is that scheme and the rest.
proof fn text_has_parts(scheme: Seq<char>, text: Seq<char>)
    requires
        scheme.is_prefix_of(text),
    ensures
        text == scheme + text.skip(scheme.len() as int),
{
    assert(text =~= scheme + text.skip(scheme.len() as int));
}

/// Whether `address`, where it starts with `scheme`, goes on with more than
/// slashes.
pub open spec fn goes_on(scheme: Seq<char>, address: Seq<char>) -> bool {
    scheme.is_prefix_of(address) ==> names_host(address.skip(scheme.len() as int))
}

/// Whatever its address, RzID is asked by `http`.
pub proof fn rzid_scheme_is_http(address: Seq<char>)
    requires
        goes_on("http://"@, address),
    ensures
        "http://"@.is_prefix_of(rzid_base(address)),
{
    if "http://"@.is_prefix_of(address) {
        let rest = address.skip("http://"@.len() as int);
        text_has_parts("http://"@, address);
        end_slashes_of_joined("http://"@, rest);
        scheme_is_a_prefix("http://"@, without_end_slashes(rest));
    } else {
        scheme_is_a_prefix(
            "http://"@,
            without_end_slashes(without_prefixes(address, "https://"@)),
        );
    }
}

/// Whatever its address, RzPoint is asked by `http` or `https`.
pub proof fn rzpoint_has_a_scheme(address: Seq<char>)
    requires
        goes_on("http://"@, address),
        goes_on("https://"@, address),
    ensures
        "http://"@.is_prefix_of(resolver_base(address)) || "https://"@.is_prefix_of(
            resolver_base(address),
        ),
{
    if "http://"@.is_prefix_of(address) {
        let rest = address.skip("http://"@.len() as int);
        text_has_parts("http://"@, address);
        end_slashes_of_joined("http://"@, rest);
        scheme_is_a_prefix("http://"@, without_end_slashes(rest));
    } else if "https://"@.is_prefix_of(address) {
        let rest = address.skip("https://"@.len() as int);
        text_has_parts("https://"@, address);
        end_slashes_of_joined("https://"@, rest);
        scheme_is_a_prefix("https://"@, without_end_slashes(rest));
    } else {
        scheme_is_a_prefix("http://"@, without_end_slashes(address));
    }
}

/// What replies in a row come to, where `failed` attempts failed before: the
/// first that does not lead to another attempt decides.
pub open spec fn resolved(
    node_id: Seq<char>,
    replies: Seq<HttpReply<String>>,
    failed: u32,
) -> Option<ResolveView>
    decreases replies.len(),
{
    if replies.len() == 0 {
        None
    } else {
        match resolve_reply(node_id, failed, replies[0]) {
            ResolveView::RetryAfter(_) => resolved(
                node_id,
                replies.drop_first(),
                (failed + 1) as u32,
            ),
            decided => Some(decided),
        }
    }
}

/// RzPoint is asked for a node three times at most: three replies decide.
pub proof fn three_replies_decide(node_id: Seq<char>, replies: Seq<HttpReply<String>>)
    requires
        replies.len() >= RESOLVE_ATTEMPTS,
    ensures
        resolved(node_id, replies, 0) is Some,
        resolved(node_id, replies, 0) == resolved(node_id, replies.take(3), 0),
{
    reveal_with_fuel(resolved, 4);
    let few = replies.take(3);
    assert(few[0] == replies[0]);
    assert(few.drop_first()[0] == replies.drop_first()[0]);
    assert(few.drop_first().drop_first()[0] == replies.drop_first().drop_first()[0]);
}

/// Failures that may pass are waited for, twice; a success that follows them
/// gives the hostname.
pub proof fn passing_failures_do_not_matter(
    node_id: Seq<char>,
    replies: Seq<HttpReply<String>>,
    k: int,
    host: String,
)
    requires
        0 <= k < RESOLVE_ATTEMPTS,
        k < replies.len(),
        forall|i: int| 0 <= i < k ==> may_pass(#[trigger] replies[i]),
        replies[k] matches HttpReply::Replied { code, status, text, parsed } && success(code)
            && parsed == Ok::<String, String>(host),
    ensures
        resolved(node_id, replies, 0) == Some(ResolveView::Found(trimmed(host@))),
{
    reveal_with_fuel(resolved, 4);
    assert(may_pass(replies[0]) || k == 0);
    if k > 0 {
        assert(replies.drop_first()[0] == replies[1]);
        if k > 1 {
            assert(replies.drop_first().drop_first()[0] == replies[2]);
        }
    }
}

/// A node that RzPoint does not know is not asked for again.
pub proof fn unknown_node_is_final(node_id: Seq<char>, failed: u32, reply: HttpReply<String>)
    requires
        reply matches HttpReply::Replied { code, status, text, parsed } && code == 404,
    ensures
        resolve_reply(node_id, failed, reply) == ResolveView::Failed(
            ErrorView::Resolver("Node "@ + node_id + " not found"@),
        ),
{
}

/// RzPoint's reply gives the hostname where it stands for success, without the
/// white space around it; what can not be read is final.
pub proof fn success_gives_the_hostname(
    node_id: Seq<char>,
    failed: u32,
    code: u16,
    status: String,
    text: String,
    parsed: Result<String, String>,
)
    requires
        200 <= code <= 299,
    ensures
        match parsed {
            Ok(body) => resolve_reply(
                node_id,
                failed,
                HttpReply::Replied { code, status, text, parsed },
            ) == ResolveView::Found(trimmed(body@)),
            Err(e) => resolve_reply(
                node_id,
                failed,
                HttpReply::Replied { code, status, text, parsed },
            ) == ResolveView::Failed(ErrorView::Resolver("Failed to read response: "@ + e@)),
        },
{
}

/// A reply that stands for no success, and any want of a reply, is followed by
/// another attempt, after 100 and then 200 milliseconds; the third failure ends
/// the matter and is told.
pub proof fn other_replies_are_retried_twice(
    node_id: Seq<char>,
    reply: HttpReply<String>,
    why: Seq<char>,
)
    requires
        match reply {
            HttpReply::Failed(e) => why == "Request failed: "@ + e@,
            HttpReply::Replied { code, status, text, parsed } => (code < 200 || code > 299) && code
                != 404 && why == "HTTP status: "@ + status@,
        },
    ensures
        may_pass(reply),
        resolve_reply(node_id, 0, reply) == ResolveView::RetryAfter(100),
        resolve_reply(node_id, 1, reply) == ResolveView::RetryAfter(200),
        resolve_reply(node_id, 2, reply) == ResolveView::Failed(ErrorView::Resolver(why)),
{
}

/// A refusal is told with the status and the body of the reply.
pub proof fn refusals_tell_status_and_body(what: Seq<char>, status: Seq<char>, text: Seq<char>)
    ensures
        refused(what, status, text) == ErrorView::Http(what + status + ": "@ + text),
{
}

/// Every error is shown by its kind, and with the whole of its text.
pub proof fn errors_show_their_text(m: Seq<char>, b: u8, n: nat)
    ensures
        ErrorView::Cancelled.message() == "Operation cancelled"@,
        ErrorView::Auth(m).message() == "Authentication error: "@ + m,
        ErrorView::Config(m).message() == "Config error: "@ + m,
        ErrorView::Validation(m).message() == "Validation error: "@ + m,
        ErrorView::ParseError(m).message() == "Parse error: "@ + m,
        ErrorView::System(m).message() == "Internal error: "@ + m,
        ErrorView::RoomzinUnreachable(m).message() == "roomzin node unreachable: "@ + m,
        ErrorView::NoLeaderAvailable.message() == "no leader found in cluster"@,
        ErrorView::NoFollowerNodeAvailable.message() == "no follower node found in cluster"@,
        ErrorView::Http(m).message() == "HTTP error: "@ + m,
        ErrorView::Resolver(m).message() == "Identity resolution error: "@ + m,
        ErrorView::Timeout.message() == "Request timeout"@,
        ErrorView::Request(m).message() == "request failed: "@ + m,
        ErrorView::Io(m).message() == "internal error: "@ + m,
        ProtocolErrorView::ShortFrame.message() == "incomplete frame"@,
        ProtocolErrorView::MissingMagic(b).message() == "missing magic byte: got 0x"@ + hex_byte(b),
        ProtocolErrorView::ShortPayload(m).message() == "short payload: "@ + m,
        ProtocolErrorView::ExtraBytes(n).message() == "extra "@ + decimal(n)
            + " bytes after parsing fields"@,
        ProtocolErrorView::InvalidUtf8.message() == "invalid UTF-8 in status string"@,
        ProtocolErrorView::InvalidResponse(m).message() == "invalid response: "@ + m,
{
}

/// A list of strings is their characters, in order and all of them.
pub proof fn texts_are_the_strings(list: Seq<String>)
    ensures
        texts(list).len() == list.len(),
        forall|i: int| 0 <= i < list.len() ==> #[trigger] texts(list)[i] == list[i]@,
{
}

/// A pool keeps the connections to the hosts of the list as they are, and no
/// others; a connection that is seen closed stays the same but for that.
pub proof fn pools_keep_the_hosts_of_the_list(
    pool: Map<(Seq<char>, u32), Connection>,
    hosts: Seq<Seq<char>>,
    key: (Seq<char>, u32),
    conn: Connection,
    ids: Seq<u64>,
)
    ensures
        of_hosts(pool, hosts).contains_key(key) <==> pool.contains_key(key) && hosts.contains(key.0),
        of_hosts(pool, hosts).contains_key(key) ==> of_hosts(pool, hosts)[key] == pool[key],
        closed_by(conn, ids).id == conn.id,
        closed_by(conn, ids).closed <==> conn.closed || ids.contains(conn.id),
{
}

} // verus!
