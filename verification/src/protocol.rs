//! The frames of the bridge.
//!
//! A router frame wraps one shard frame:
//!
//! ```text
//! 0xFE | length: u32 | segment length: u8 | segment | write flag: u8 | shard frame
//! ```
//!
//! and a shard frame carries one request or response:
//!
//! ```text
//! 0xFF | correlation id: u32 | payload length: u32 | payload
//! ```
//!
//! All integers are little-endian; a router frame's length counts what follows
//! it.

use crate::buffer::{buffer_bytes, buffer_freeze, buffer_split_to, buffered, chunk_bytes, frozen};
use crate::codec::{
    le16, le16_at, le32, le32_at, push_bytes, push_le16, push_le32, read_le16, read_le32, utf8_text,
};
use crate::error::{ErrorView, RZError};
use crate::text::{decimal, decimal_text, hex_byte, hex_byte_text, joined};
use bytes::{Bytes, BytesMut};
use vstd::prelude::*;
use vstd::slice::{slice_subrange, slice_to_vec};
use vstd::utf8::{decode_utf8, valid_utf8};

verus! {

/// First byte of a router frame.
pub const ROUTER_MAGIC: u8 = 0xFE;

/// First byte of a shard frame.
pub const SHARD_MAGIC: u8 = 0xFF;

/// Segment of a router frame that only keeps its connection open.
pub const KEEPALIVE_SEGMENT: &'static str = "__keepalive__";

/// Largest length that a router frame may announce.
pub const MAX_ROUTER_LEN: u32 = 16777216;

/// Why bytes from a shard node are not a frame.
#[derive(Debug)]
pub enum ProtocolError {
    ShortFrame,
    MissingMagic(u8),
    ShortPayload(String),
    ExtraBytes(usize),
    InvalidUtf8,
    InvalidResponse(String),
}

/// A [`ProtocolError`] with its text as characters.
pub enum ProtocolErrorView {
    ShortFrame,
    MissingMagic(u8),
    ShortPayload(Seq<char>),
    ExtraBytes(nat),
    InvalidUtf8,
    InvalidResponse(Seq<char>),
}

impl View for ProtocolError {
    type V = ProtocolErrorView;

    open spec fn view(&self) -> ProtocolErrorView {
        match *self {
            ProtocolError::ShortFrame => ProtocolErrorView::ShortFrame,
            ProtocolError::MissingMagic(b) => ProtocolErrorView::MissingMagic(b),
            ProtocolError::ShortPayload(m) => ProtocolErrorView::ShortPayload(m@),
            ProtocolError::ExtraBytes(n) => ProtocolErrorView::ExtraBytes(n as nat),
            ProtocolError::InvalidUtf8 => ProtocolErrorView::InvalidUtf8,
            ProtocolError::InvalidResponse(m) => ProtocolErrorView::InvalidResponse(m@),
        }
    }
}

impl ProtocolErrorView {
    /// What is shown to an operator.
    pub open spec fn message(self) -> Seq<char> {
        match self {
            ProtocolErrorView::ShortFrame => "incomplete frame"@,
            ProtocolErrorView::MissingMagic(b) => "missing magic byte: got 0x"@ + hex_byte(b),
            ProtocolErrorView::ShortPayload(m) => "short payload: "@ + m,
            ProtocolErrorView::ExtraBytes(n) => "extra "@ + decimal(n)
                + " bytes after parsing fields"@,
            ProtocolErrorView::InvalidUtf8 => "invalid UTF-8 in status string"@,
            ProtocolErrorView::InvalidResponse(m) => "invalid response: "@ + m,
        }
    }
}

impl ProtocolError {
    /// The text that is shown to an operator.
    pub fn message(&self) -> (text: String)
        ensures
            text@ == self@.message(),
    {
        match self {
            ProtocolError::ShortFrame => "incomplete frame".to_owned(),
            ProtocolError::MissingMagic(b) => joined(
                "missing magic byte: got 0x",
                hex_byte_text(*b).as_str(),
            ),
            ProtocolError::ShortPayload(m) => joined("short payload: ", m.as_str()),
            ProtocolError::ExtraBytes(n) => joined(
                joined("extra ", decimal_text(*n as u64).as_str()).as_str(),
                " bytes after parsing fields",
            ),
            ProtocolError::InvalidUtf8 => "invalid UTF-8 in status string".to_owned(),
            ProtocolError::InvalidResponse(m) => joined("invalid response: ", m.as_str()),
        }
    }
}

/// The fixed part of a response frame.
#[derive(Debug, Clone, Copy)]
pub struct Header {
    /// Correlation id.
    pub clr_id: u32,
    /// Length of the status text, "SUCCESS" or "ERROR".
    pub status_len: u8,
    /// Number of fields that follow the status.
    pub field_cnt: u16,
}

/// The shard frame for `payload`: its length field holds the payload's length
/// modulo 2^32.
pub open spec fn shard_frame(clr_id: u32, payload: Seq<u8>) -> Seq<u8> {
    seq![SHARD_MAGIC] + le32(clr_id) + le32((payload.len() % 0x1_0000_0000) as u32) + payload
}

/// Frames `payload` under `clr_id`.
pub fn prepend_header(clr_id: u32, payload: &[u8]) -> (frame: Vec<u8>)
    ensures
        frame@ == shard_frame(clr_id, payload@),
{
    let total_len: u32 = (payload.len() as u64 % 0x1_0000_0000) as u32;
    let mut out: Vec<u8> = Vec::new();
    out.push(SHARD_MAGIC);
    push_le32(&mut out, clr_id);
    push_le32(&mut out, total_len);
    push_bytes(&mut out, payload);
    proof {
        assert(out@ =~= shard_frame(clr_id, payload@));
    }
    out
}

/// The three digits that stand for an error code.
pub open spec fn status_digits(error_code: u8) -> Seq<u8> {
    if error_code == 1 {
        seq![0x34u8, 0x30, 0x34]
    } else if error_code == 2 {
        seq![0x35u8, 0x30, 0x33]
    } else if error_code == 3 {
        seq![0x34u8, 0x30, 0x38]
    } else {
        seq![0x35u8, 0x30, 0x30]
    }
}

/// The payload of an error response: the status "ERROR" and one field.
pub open spec fn error_payload(error_code: u8) -> Seq<u8> {
    seq![5u8, 0x45, 0x52, 0x52, 0x4F, 0x52] + le16(1) + le16(1) + seq![1u8] + le32(4) + le32(3)
        + status_digits(error_code)
}

/// Builds the response that tells a router that its request failed: 404 for
/// code 1, 503 for 2, 408 for 3 and 500 for any other.
pub fn build_error_response(clrid: u32, error_code: u8) -> (frame: Vec<u8>)
    ensures
        frame@ == shard_frame(clrid, error_payload(error_code)),
{
    let mut payload: Vec<u8> = Vec::new();
    payload.push(5);
    payload.push(0x45);
    payload.push(0x52);
    payload.push(0x52);
    payload.push(0x4F);
    payload.push(0x52);
    push_le16(&mut payload, 1);
    push_le16(&mut payload, 1);
    payload.push(1);
    push_le32(&mut payload, 4);
    push_le32(&mut payload, 3);
    if error_code == 1 {
        payload.push(0x34);
        payload.push(0x30);
        payload.push(0x34);
    } else if error_code == 2 {
        payload.push(0x35);
        payload.push(0x30);
        payload.push(0x33);
    } else if error_code == 3 {
        payload.push(0x34);
        payload.push(0x30);
        payload.push(0x38);
    } else {
        payload.push(0x35);
        payload.push(0x30);
        payload.push(0x30);
    }
    proof {
        assert(payload@ =~= error_payload(error_code));
    }
    prepend_header(clrid, payload.as_slice())
}

/// What draining one response frame comes to.
#[derive(Debug)]
pub enum DrainStep {
    /// The frame is not complete: read on.
    NeedMore,
    /// A whole frame, header included.
    Frame(Header, Bytes),
    /// The stream cannot be used any more.
    Failed(ProtocolError),
}

/// A [`DrainStep`] over plain bytes.
pub enum DrainView {
    NeedMore,
    Frame(Header, Seq<u8>),
    Failed(ProtocolErrorView),
}

impl View for DrainStep {
    type V = DrainView;

    open spec fn view(&self) -> DrainView {
        match *self {
            DrainStep::NeedMore => DrainView::NeedMore,
            DrainStep::Frame(header, frame) => DrainView::Frame(header, frozen(frame)),
            DrainStep::Failed(e) => DrainView::Failed(e@),
        }
    }
}

/// The header of a whole response frame, or why it has none.
pub open spec fn parsed_response(frame: Seq<u8>) -> DrainView
    recommends
        frame.len() >= 9,
{
    let payload = frame.skip(9);
    let status_len = payload[0] as int;
    if payload.len() == 0 {
        DrainView::Failed(ProtocolErrorView::ShortPayload("empty payload"@))
    } else if payload.len() < 1 + status_len + 2 {
        DrainView::Failed(ProtocolErrorView::ShortPayload("missing field count"@))
    } else {
        DrainView::Frame(
            Header {
                clr_id: le32_at(frame, 1),
                status_len: payload[0],
                field_cnt: le16_at(payload, 1 + status_len),
            },
            frame,
        )
    }
}

/// Length of the response frame at the front of `buf`.
pub open spec fn response_len(buf: Seq<u8>) -> int {
    9 + le32_at(buf, 5)
}

/// Whether a whole response frame stands at the front of `buf`.
pub open spec fn has_response(buf: Seq<u8>) -> bool {
    buf.len() >= 9 && buf[0] == SHARD_MAGIC && buf.len() >= response_len(buf)
}

/// What draining `buf` gives, where `ended` says that no byte will follow.
pub open spec fn drained(buf: Seq<u8>, ended: bool) -> DrainView {
    if buf.len() >= 9 && buf[0] != SHARD_MAGIC {
        DrainView::Failed(ProtocolErrorView::MissingMagic(buf[0]))
    } else if has_response(buf) {
        parsed_response(buf.take(response_len(buf)))
    } else if ended {
        DrainView::Failed(ProtocolErrorView::ShortFrame)
    } else {
        DrainView::NeedMore
    }
}

/// What draining leaves in `buf`: a whole frame is taken out, whether or not
/// its payload can be used.
pub open spec fn left_after_drain(buf: Seq<u8>) -> Seq<u8> {
    if has_response(buf) {
        buf.skip(response_len(buf))
    } else {
        buf
    }
}

/// Takes one response frame from the front of `buf`. `ended` says that the
/// last read failed or met the end of the stream.
pub fn drain_frame(buf: &mut BytesMut, ended: bool) -> (step: DrainStep)
    ensures
        step@ == drained(buffered(*old(buf)), ended),
        buffered(*final(buf)) == left_after_drain(buffered(*old(buf))),
{
    let bytes: &[u8] = buffer_bytes(buf);
    let have: usize = bytes.len();
    if have < 9 {
        if ended {
            return DrainStep::Failed(ProtocolError::ShortFrame);
        }
        return DrainStep::NeedMore;
    }
    if bytes[0] != SHARD_MAGIC {
        return DrainStep::Failed(ProtocolError::MissingMagic(bytes[0]));
    }
    let clr_id: u32 = read_le32(bytes, 1);
    let payload_len: u32 = read_le32(bytes, 5);
    if (have as u64) < 9 + payload_len as u64 {
        if ended {
            return DrainStep::Failed(ProtocolError::ShortFrame);
        }
        return DrainStep::NeedMore;
    }
    let payload_len: usize = payload_len as usize;
    let frame: Bytes = buffer_freeze(buffer_split_to(buf, 9 + payload_len));
    let full: &[u8] = chunk_bytes(&frame);
    if payload_len == 0 {
        return DrainStep::Failed(ProtocolError::ShortPayload("empty payload".to_owned()));
    }
    let status_len: usize = full[9] as usize;
    if payload_len < 1 + status_len + 2 {
        return DrainStep::Failed(ProtocolError::ShortPayload("missing field count".to_owned()));
    }
    let field_cnt: u16 = read_le16(full, 10 + status_len);
    let header: Header = Header { clr_id, status_len: full[9], field_cnt };
    DrainStep::Frame(header, frame)
}

/// What decoding one router frame gives.
pub enum DecodeResult {
    /// The frame is not complete: read on.
    NeedMore,
    /// A whole frame.
    Frame {
        frame_len: usize,
        segment: String,
        is_write: bool,
        /// The shard frame inside, from its first byte 0xFF.
        shard_frame: Vec<u8>,
        /// Where the correlation id stands in the buffer.
        clrid_offset: usize,
        original_clrid: u32,
    },
    /// No frame stands here: look for the next one.
    Error(RZError),
}

/// A [`DecodeResult`] over plain values.
pub enum RouterDecode {
    NeedMore,
    Frame {
        frame_len: nat,
        segment: Seq<char>,
        is_write: bool,
        shard_frame: Seq<u8>,
        clrid_offset: nat,
        original_clrid: u32,
    },
    Error(ErrorView),
}

impl View for DecodeResult {
    type V = RouterDecode;

    open spec fn view(&self) -> RouterDecode {
        match *self {
            DecodeResult::NeedMore => RouterDecode::NeedMore,
            DecodeResult::Frame {
                frame_len,
                segment,
                is_write,
                shard_frame,
                clrid_offset,
                original_clrid,
            } => RouterDecode::Frame {
                frame_len: frame_len as nat,
                segment: segment@,
                is_write,
                shard_frame: shard_frame@,
                clrid_offset: clrid_offset as nat,
                original_clrid,
            },
            DecodeResult::Error(e) => RouterDecode::Error(e@),
        }
    }
}

/// Length of the router frame at the front of `buf`.
pub open spec fn router_frame_len(buf: Seq<u8>) -> int {
    5 + le32_at(buf, 1)
}

/// Where the write flag of the router frame at the front of `buf` stands.
pub open spec fn write_flag_at(buf: Seq<u8>) -> int {
    6 + buf[5]
}

/// The bytes of the segment of the router frame at the front of `buf`.
pub open spec fn segment_bytes(buf: Seq<u8>) -> Seq<u8> {
    buf.subrange(6, write_flag_at(buf))
}

/// What stands at the front of `buf`.
pub open spec fn decoded(buf: Seq<u8>) -> RouterDecode {
    let frame_len = router_frame_len(buf);
    let flag_at = write_flag_at(buf);
    if buf.len() < 5 {
        RouterDecode::NeedMore
    } else if buf[0] != ROUTER_MAGIC {
        RouterDecode::Error(ErrorView::ParseError("bad router magic"@))
    } else if le32_at(buf, 1) > MAX_ROUTER_LEN {
        RouterDecode::Error(ErrorView::ParseError("frame too large"@))
    } else if buf.len() < frame_len {
        RouterDecode::NeedMore
    } else if le32_at(buf, 1) < 2 {
        RouterDecode::Error(ErrorView::ParseError("router total_len too small"@))
    } else if flag_at >= frame_len {
        RouterDecode::Error(ErrorView::ParseError("segment length out of range"@))
    } else if !valid_utf8(segment_bytes(buf)) {
        RouterDecode::Error(ErrorView::ParseError("segment not utf-8"@))
    } else if flag_at + 6 > frame_len || buf[flag_at + 1] != SHARD_MAGIC {
        RouterDecode::Error(ErrorView::ParseError("missing shard magic"@))
    } else {
        RouterDecode::Frame {
            frame_len: frame_len as nat,
            segment: decode_utf8(segment_bytes(buf)),
            is_write: buf[flag_at] == 1,
            shard_frame: buf.subrange(flag_at + 1, frame_len),
            clrid_offset: (flag_at + 2) as nat,
            original_clrid: le32_at(buf, flag_at + 2),
        }
    }
}

/// The result for a frame that breaks the format.
fn malformed(what: &str) -> (result: DecodeResult)
    ensures
        result@ == RouterDecode::Error(ErrorView::ParseError(what@)),
{
    DecodeResult::Error(RZError::ParseError(what.to_owned()))
}

/// Decodes the router frame at the front of `buf`.
pub fn try_decode_router(buf: &[u8]) -> (result: DecodeResult)
    ensures
        result@ == decoded(buf@),
{
    if buf.len() < 5 {
        return DecodeResult::NeedMore;
    }
    if buf[0] != ROUTER_MAGIC {
        return malformed("bad router magic");
    }
    let total_len: u32 = read_le32(buf, 1);
    if total_len > MAX_ROUTER_LEN {
        return malformed("frame too large");
    }
    let frame_len: usize = 5 + total_len as usize;
    if buf.len() < frame_len {
        return DecodeResult::NeedMore;
    }
    if total_len < 2 {
        return malformed("router total_len too small");
    }
    let seg_len: usize = buf[5] as usize;
    let is_write_pos: usize = 6 + seg_len;
    if is_write_pos >= frame_len {
        return malformed("segment length out of range");
    }
    let segment: String = match utf8_text(slice_subrange(buf, 6, is_write_pos)) {
        Some(text) => text,
        None => {
            return malformed("segment not utf-8");
        },
    };
    let is_write: bool = buf[is_write_pos] == 1;
    let shard_start: usize = is_write_pos + 1;
    if shard_start + 5 > frame_len || buf[shard_start] != SHARD_MAGIC {
        return malformed("missing shard magic");
    }
    let original_clrid: u32 = read_le32(buf, shard_start + 1);
    let shard_frame: Vec<u8> = slice_to_vec(slice_subrange(buf, shard_start, frame_len));
    DecodeResult::Frame {
        frame_len,
        segment,
        is_write,
        shard_frame,
        clrid_offset: shard_start + 1,
        original_clrid,
    }
}

/// Whether `pos` is the first place from `from` on where a router frame may
/// start.
pub open spec fn is_next_magic(buf: Seq<u8>, from: int, pos: int) -> bool {
    &&& from <= pos < buf.len()
    &&& buf[pos] == ROUTER_MAGIC
    &&& forall|i: int| from <= i < pos ==> buf[i] != ROUTER_MAGIC
}

/// Finds the first place from `from` on where a router frame may start.
pub fn find_next_router_magic(buf: &[u8], from: usize) -> (found: Option<usize>)
    requires
        from <= buf@.len(),
    ensures
        found matches Some(pos) ==> is_next_magic(buf@, from as int, pos as int),
        found matches Some(pos) ==> from <= pos < buf@.len() && buf@[pos as int] == 0xFE && (
        forall|i: int| from <= i < pos ==> buf@[i] != 0xFE),
        found is None ==> forall|i: int| from <= i < buf@.len() ==> buf@[i] != ROUTER_MAGIC,
{
    let mut pos: usize = from;
    while pos < buf.len()
        invariant
            from <= pos <= buf@.len(),
            forall|i: int| from <= i < pos ==> buf@[i] != ROUTER_MAGIC,
        decreases buf@.len() - pos,
    {
        if buf[pos] == ROUTER_MAGIC {
            return Some(pos);
        }
        pos = pos + 1;
    }
    None
}

} // verus!
