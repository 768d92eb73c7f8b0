//! What holds of the frames as a whole.

use crate::codec::{
    le16, le16_at, le16_is_read_back, le32, le32_at, le32_is_read_back, le32_is_written_back,
};
use crate::error::ErrorView;
use crate::protocol::{
    decoded, drained, error_payload, has_response, left_after_drain, parsed_response, response_len,
    router_frame_len, segment_bytes, shard_frame, write_flag_at, DrainView, Header,
    ProtocolErrorView, RouterDecode, MAX_ROUTER_LEN, ROUTER_MAGIC, SHARD_MAGIC,
};
use vstd::prelude::*;
use vstd::utf8::{
    decode_utf8_encode_utf8, encode_utf8, encode_utf8_decode_utf8, encode_utf8_valid_utf8,
    valid_utf8,
};

verus! {

/// The router frame for a shard frame under `segment`, with `flag` as its write
/// flag.
pub open spec fn flagged_frame(segment: Seq<char>, flag: u8, shard: Seq<u8>) -> Seq<u8> {
    let name = encode_utf8(segment);
    seq![0xFEu8] + le32((2 + name.len() + shard.len()) as u32) + seq![name.len() as u8] + name
        + seq![flag] + shard
}

/// The router frame for a shard frame under `segment`.
pub open spec fn router_frame(segment: Seq<char>, is_write: bool, shard: Seq<u8>) -> Seq<u8> {
    flagged_frame(
        segment,
        if is_write {
            1
        } else {
            0
        },
        shard,
    )
}

/// Whether a router frame can carry that: the segment's length fits a byte,
/// the whole fits the limit, and the shard frame has its magic and an id.
pub open spec fn can_be_routed(segment: Seq<char>, shard: Seq<u8>) -> bool {
    &&& encode_utf8(segment).len() <= 255
    &&& 2 + encode_utf8(segment).len() + shard.len() <= 16777216
    &&& shard.len() >= 5
    &&& shard[0] == 0xFF
}

/// What a router frame carries is what decoding it gives, whatever follows it.
pub proof fn router_frame_is_decoded(
    segment: Seq<char>,
    is_write: bool,
    shard: Seq<u8>,
    rest: Seq<u8>,
)
    requires
        can_be_routed(segment, shard),
    ensures
        decoded(router_frame(segment, is_write, shard) + rest) == (RouterDecode::Frame {
            frame_len: router_frame(segment, is_write, shard).len(),
            segment,
            is_write,
            shard_frame: shard,
            clrid_offset: (8 + encode_utf8(segment).len()) as nat,
            original_clrid: le32_at(shard, 1),
        }),
{
    let flag: u8 = if is_write {
        1
    } else {
        0
    };
    flag_of_one_is_a_write(segment, flag, shard, rest);
}

/// A router frame is decoded whatever its flag; it is a write under the flag 1
/// and under no other.
pub proof fn flag_of_one_is_a_write(segment: Seq<char>, flag: u8, shard: Seq<u8>, rest: Seq<u8>)
    requires
        can_be_routed(segment, shard),
    ensures
        decoded(flagged_frame(segment, flag, shard) + rest) == (RouterDecode::Frame {
            frame_len: flagged_frame(segment, flag, shard).len(),
            segment,
            is_write: flag == 1,
            shard_frame: shard,
            clrid_offset: (8 + encode_utf8(segment).len()) as nat,
            original_clrid: le32_at(shard, 1),
        }),
{
    let name = encode_utf8(segment);
    let total = (2 + name.len() + shard.len()) as u32;
    let frame = flagged_frame(segment, flag, shard);
    let buf = frame + rest;
    let tail = seq![name.len() as u8] + name + seq![flag] + shard + rest;
    assert(buf =~= seq![ROUTER_MAGIC] + le32(total) + tail);
    le32_is_read_back(total, seq![ROUTER_MAGIC], tail);
    assert(le32_at(buf, 1) == total);
    assert(buf[5] == name.len() as u8);
    assert(write_flag_at(buf) == 6 + name.len());
    assert(frame.len() == 5 + total);
    assert(segment_bytes(buf) =~= name);
    encode_utf8_valid_utf8(segment);
    encode_utf8_decode_utf8(segment);
    let at = 6 + name.len() as int;
    assert(buf[at] == flag);
    assert(buf.subrange(at + 1, frame.len() as int) =~= shard);
    assert(buf[at + 1] == shard[0]);
    assert(buf[at + 2] == shard[1]);
    assert(buf[at + 3] == shard[2]);
    assert(buf[at + 4] == shard[3]);
    assert(buf[at + 5] == shard[4]);
}

/// Nothing else is decoded: where a frame is found, the buffer starts with the
/// router frame of what was found, and that is one that can be routed.
pub proof fn only_router_frames_are_decoded(buf: Seq<u8>)
    ensures
        decoded(buf) matches RouterDecode::Frame {
            frame_len,
            segment,
            is_write,
            shard_frame,
            clrid_offset,
            original_clrid,
        } ==> {
            &&& can_be_routed(segment, shard_frame)
            &&& frame_len <= buf.len()
            &&& clrid_offset == 8 + encode_utf8(segment).len()
            &&& is_write <==> buf[clrid_offset - 2] == 1
            &&& original_clrid == le32_at(shard_frame, 1)
            &&& buf.take(frame_len as int) == flagged_frame(
                segment,
                buf[clrid_offset - 2],
                shard_frame,
            )
        },
{
    if let RouterDecode::Frame {
        frame_len,
        segment,
        is_write,
        shard_frame,
        clrid_offset,
        original_clrid,
    } = decoded(buf) {
        decoded_frame_is_the_front(buf);
        let name = segment_bytes(buf);
        decode_utf8_encode_utf8(name);
        le32_is_written_back(buf, 1);
        let total = (2 + name.len() + shard_frame.len()) as u32;
        assert(total == le32_at(buf, 1));
        let frame = flagged_frame(segment, buf[clrid_offset - 2], shard_frame);
        assert(frame.len() == frame_len);
        assert forall|i: int| 0 <= i < frame_len implies frame[i] == buf.take(frame_len as int)[i] by {
            if 1 <= i < 5 {
                assert(frame[i] == le32(total)[i - 1]);
                assert(buf.subrange(1, 5)[i - 1] == buf[i]);
            }
        }
        assert(frame =~= buf.take(frame_len as int));
    }
}

/// More is waited for where the length has not arrived, or where it promises
/// more than has, and no more than a frame may hold.
pub proof fn more_is_read_only_for_a_frame_in_progress(buf: Seq<u8>)
    ensures
        decoded(buf) is NeedMore <==> buf.len() < 5 || (buf[0] == 0xFE && le32_at(buf, 1)
            <= 16777216 && buf.len() < 5 + le32_at(buf, 1)),
{
}

/// What is neither a frame nor one in progress is refused, with the first of
/// its faults.
pub proof fn first_fault_is_told(buf: Seq<u8>)
    requires
        buf.len() >= 5,
    ensures
        ({
            let len = le32_at(buf, 1);
            let end = 5 + len;
            let name_end = 6 + buf[5];
            let refused = |what: Seq<char>|
                decoded(buf) == RouterDecode::Error(ErrorView::ParseError(what));
            &&& buf[0] != 0xFE ==> refused("bad router magic"@)
            &&& buf[0] == 0xFE ==> {
                &&& len > 16777216 ==> refused("frame too large"@)
                &&& len <= 16777216 && end <= buf.len() ==> {
                    &&& len < 2 ==> refused("router total_len too small"@)
                    &&& len >= 2 && name_end >= end ==> refused("segment length out of range"@)
                    &&& len >= 2 && name_end < end ==> {
                        let name = buf.subrange(6, name_end);
                        let bare = end - name_end < 6 || buf[name_end + 1] != 0xFF;
                        &&& !valid_utf8(name) ==> refused("segment not utf-8"@)
                        &&& valid_utf8(name) && bare ==> refused("missing shard magic"@)
                        &&& valid_utf8(name) && !bare ==> decoded(buf) is Frame
                    }
                }
            }
        }),
{
}

/// Bytes that arrive later do not change what was decoded.
pub proof fn decoding_is_final(buf: Seq<u8>, more: Seq<u8>)
    requires
        decoded(buf) !is NeedMore,
    ensures
        decoded(buf + more) == decoded(buf),
{
    let all = buf + more;
    assert(le32_at(all, 1) == le32_at(buf, 1));
    if buf[0] == ROUTER_MAGIC && 2 <= le32_at(buf, 1) <= MAX_ROUTER_LEN {
        assert(all[5] == buf[5]);
        if write_flag_at(buf) < router_frame_len(buf) {
            assert(segment_bytes(all) =~= segment_bytes(buf));
            if write_flag_at(buf) + 6 <= router_frame_len(buf) {
                assert(all.subrange(write_flag_at(buf) + 1, router_frame_len(buf))
                    =~= buf.subrange(write_flag_at(buf) + 1, router_frame_len(buf)));
                assert(le32_at(all, write_flag_at(buf) + 2) == le32_at(
                    buf,
                    write_flag_at(buf) + 2,
                ));
            }
        }
    }
}

/// A decoded frame is the front of the buffer: its shard frame ends it, starts
/// with its magic and carries the id that is reported, at the offset that is
/// reported.
pub proof fn decoded_frame_is_the_front(buf: Seq<u8>)
    ensures
        decoded(buf) matches RouterDecode::Frame {
            frame_len,
            segment,
            is_write,
            shard_frame,
            clrid_offset,
            original_clrid,
        } ==> {
            &&& 0 < frame_len <= buf.len()
            &&& frame_len <= 5 + MAX_ROUTER_LEN
            &&& shard_frame.len() >= 5
            &&& shard_frame[0] == SHARD_MAGIC
            &&& shard_frame == buf.subrange(clrid_offset - 1, frame_len as int)
            &&& original_clrid == le32_at(shard_frame, 1)
            &&& original_clrid == le32_at(buf, clrid_offset as int)
        },
{
    if let RouterDecode::Frame {
        frame_len,
        segment,
        is_write,
        shard_frame,
        clrid_offset,
        original_clrid,
    } = decoded(buf) {
        let at = write_flag_at(buf) + 1;
        assert(shard_frame[1] == buf[at + 1]);
        assert(shard_frame[2] == buf[at + 2]);
        assert(shard_frame[3] == buf[at + 3]);
        assert(shard_frame[4] == buf[at + 4]);
    }
}

/// How the parts of a shard frame follow each other.
proof fn frame_parts(id: Seq<u8>, len: Seq<u8>, payload: Seq<u8>, rest: Seq<u8>)
    requires
        id.len() == 4,
        len.len() == 4,
    ensures
        ({
            let frame = seq![SHARD_MAGIC] + id + len + payload;
            &&& frame == seq![SHARD_MAGIC] + id + (len + payload)
            &&& frame + rest == seq![SHARD_MAGIC] + id + len + (payload + rest)
            &&& frame[0] == SHARD_MAGIC
            &&& frame.len() == 9 + payload.len()
            &&& frame.skip(9) == payload
            &&& (frame + rest).take(9 + payload.len() as int) == frame
            &&& (frame + rest).skip(9 + payload.len() as int) == rest
        }),
{
    let frame = seq![SHARD_MAGIC] + id + len + payload;
    assert(frame =~= seq![SHARD_MAGIC] + id + (len + payload));
    assert(frame + rest =~= seq![SHARD_MAGIC] + id + len + (payload + rest));
    assert(frame.skip(9) =~= payload);
    assert((frame + rest).take(9 + payload.len() as int) =~= frame);
    assert((frame + rest).skip(9 + payload.len() as int) =~= rest);
}

/// A frame whose length field tells its payload's length is drained whole.
proof fn frame_is_drained(id: Seq<u8>, len: Seq<u8>, payload: Seq<u8>, rest: Seq<u8>, ended: bool)
    requires
        id.len() == 4,
        len.len() == 4,
        le32_at(seq![SHARD_MAGIC] + id + len + (payload + rest), 5) == payload.len(),
    ensures
        ({
            let frame = seq![SHARD_MAGIC] + id + len + payload;
            &&& frame == seq![SHARD_MAGIC] + id + (len + payload)
            &&& drained(frame + rest, ended) == parsed_response(frame)
            &&& left_after_drain(frame + rest) == rest
            &&& frame.skip(9) == payload
        }),
{
    frame_parts(id, len, payload, rest);
}

/// A framed payload is drained as it was framed, under the id that it was
/// framed with, and what follows it stays.
pub proof fn framed_payload_is_drained(clr_id: u32, payload: Seq<u8>, rest: Seq<u8>, ended: bool)
    requires
        payload.len() <= u32::MAX,
    ensures
        drained(shard_frame(clr_id, payload) + rest, ended) == parsed_response(
            shard_frame(clr_id, payload),
        ),
        left_after_drain(shard_frame(clr_id, payload) + rest) == rest,
        le32_at(shard_frame(clr_id, payload), 1) == clr_id,
        shard_frame(clr_id, payload).skip(9) == payload,
{
    let len = payload.len() as u32;
    let (magic, id, size) = (seq![SHARD_MAGIC], le32(clr_id), le32(len));
    assert(payload.len() % 0x1_0000_0000 == payload.len()) by (nonlinear_arith)
        requires
            payload.len() <= u32::MAX,
    ;
    assert(shard_frame(clr_id, payload) == magic + id + size + payload);
    assert(id.len() == 4 && size.len() == 4);
    assert((magic + id).len() == 5);
    assert(le32_at(magic + id + size + (payload + rest), 5) == payload.len()) by {
        le32_is_read_back(len, magic + id, payload + rest);
    }
    frame_is_drained(id, size, payload, rest, ended);
    assert(le32_at(shard_frame(clr_id, payload), 1) == clr_id) by {
        le32_is_read_back(clr_id, magic, size + payload);
    }
}

/// How a shard frame is laid out: its magic, the id, the payload's length and
/// the payload.
pub proof fn payload_is_framed(clr_id: u32, payload: Seq<u8>)
    ensures
        shard_frame(clr_id, payload).len() == 9 + payload.len(),
        shard_frame(clr_id, payload)[0] == 0xFF,
        le32_at(shard_frame(clr_id, payload), 1) == clr_id,
        le32_at(shard_frame(clr_id, payload), 5) == payload.len() % 0x1_0000_0000,
        shard_frame(clr_id, payload).skip(9) == payload,
{
    let len = (payload.len() % 0x1_0000_0000) as u32;
    let (magic, id, size) = (seq![SHARD_MAGIC], le32(clr_id), le32(len));
    frame_parts(id, size, payload, Seq::empty());
    assert((magic + id).len() == 5);
    le32_is_read_back(clr_id, magic, size + payload);
    le32_is_read_back(len, magic + id, payload);
}

/// A response is drained whatever its status, its field count and its fields:
/// the header tells its id, the length of its status and its field count.
pub proof fn response_is_drained(
    clr_id: u32,
    status: Seq<u8>,
    count: u16,
    fields: Seq<u8>,
    rest: Seq<u8>,
    ended: bool,
)
    requires
        status.len() <= 255,
        1 + status.len() + 2 + fields.len() <= u32::MAX,
    ensures
        ({
            let frame = shard_frame(
                clr_id,
                seq![status.len() as u8] + status + le16(count) + fields,
            );
            &&& drained(frame + rest, ended) == DrainView::Frame(
                Header { clr_id, status_len: status.len() as u8, field_cnt: count },
                frame,
            )
            &&& left_after_drain(frame + rest) == rest
        }),
{
    let payload = seq![status.len() as u8] + status + le16(count) + fields;
    framed_payload_is_drained(clr_id, payload, rest, ended);
    let before = seq![status.len() as u8] + status;
    le16_is_read_back(count, before, fields);
    assert(payload[0] == status.len() as u8);
    assert(shard_frame(clr_id, payload).skip(9) == payload);
}

/// A whole frame is refused only where its payload has no room for the status
/// that it announces and for a field count; it is taken out of the buffer all
/// the same.
pub proof fn only_short_payloads_are_refused(
    clr_id: u32,
    payload: Seq<u8>,
    rest: Seq<u8>,
    ended: bool,
)
    requires
        payload.len() <= u32::MAX,
    ensures
        ({
            let buf = shard_frame(clr_id, payload) + rest;
            &&& drained(buf, ended) is Failed <==> payload.len() == 0 || payload.len() < 1
                + payload[0] + 2
            &&& payload.len() == 0 ==> drained(buf, ended) == DrainView::Failed(
                ProtocolErrorView::ShortPayload("empty payload"@),
            )
            &&& 0 < payload.len() < 1 + payload[0] + 2 ==> drained(buf, ended)
                == DrainView::Failed(ProtocolErrorView::ShortPayload("missing field count"@))
            &&& drained(buf, ended) !is Failed ==> drained(buf, ended) is Frame
            &&& left_after_drain(buf) == rest
        }),
{
    framed_payload_is_drained(clr_id, payload, rest, ended);
}

/// A frame of which a part is missing is waited for, and is an error once the
/// stream has ended; its bytes stay.
pub proof fn part_of_a_frame_is_waited_for(clr_id: u32, payload: Seq<u8>, n: int, ended: bool)
    requires
        payload.len() <= u32::MAX,
        0 <= n < 9 + payload.len(),
    ensures
        ({
            let part = shard_frame(clr_id, payload).take(n);
            &&& drained(part, ended) == if ended {
                DrainView::Failed(ProtocolErrorView::ShortFrame)
            } else {
                DrainView::NeedMore
            }
            &&& left_after_drain(part) == part
        }),
{
    payload_is_framed(clr_id, payload);
    let frame = shard_frame(clr_id, payload);
    assert(payload.len() % 0x1_0000_0000 == payload.len()) by (nonlinear_arith)
        requires
            payload.len() <= u32::MAX,
    ;
    if n >= 9 {
        assert(le32_at(frame.take(n), 5) == le32_at(frame, 5));
        assert(frame.take(n)[0] == frame[0]);
    }
}

/// Bytes that start with no shard magic are refused, and stay.
pub proof fn other_magic_is_refused(buf: Seq<u8>, ended: bool)
    requires
        buf.len() >= 9,
        buf[0] != 0xFF,
    ensures
        drained(buf, ended) == DrainView::Failed(ProtocolErrorView::MissingMagic(buf[0])),
        left_after_drain(buf) == buf,
{
}

/// An error response holds the status "ERROR" and one field, numbered 1, whose
/// text is the status number of the code.
pub proof fn error_is_told_in_digits(error_code: u8)
    ensures
        ({
            let payload = error_payload(error_code);
            let digits = payload.skip(19);
            &&& payload.len() == 22
            &&& payload.take(6) == seq![5u8, 0x45, 0x52, 0x52, 0x4F, 0x52]
            &&& le16_at(payload, 6) == 1
            &&& le16_at(payload, 8) == 1
            &&& payload[10] == 1
            &&& le32_at(payload, 11) == 4
            &&& le32_at(payload, 15) == 3
            &&& error_code == 1 ==> digits == seq![0x34u8, 0x30, 0x34]
            &&& error_code == 2 ==> digits == seq![0x35u8, 0x30, 0x33]
            &&& error_code == 3 ==> digits == seq![0x34u8, 0x30, 0x38]
            &&& error_code == 0 || error_code > 3 ==> digits == seq![0x35u8, 0x30, 0x30]
        }),
{
    let payload = error_payload(error_code);
    assert(payload.take(6) =~= seq![5u8, 0x45, 0x52, 0x52, 0x4F, 0x52]);
    assert(payload.skip(19) =~= payload.subrange(19, 22));
}

/// An error response is read as one: under the id of the request, with the
/// status of five letters and with one field.
pub proof fn error_response_is_read(clrid: u32, error_code: u8, rest: Seq<u8>, ended: bool)
    ensures
        drained(shard_frame(clrid, error_payload(error_code)) + rest, ended) == DrainView::Frame(
            Header { clr_id: clrid, status_len: 5, field_cnt: 1 },
            shard_frame(clrid, error_payload(error_code)),
        ),
        left_after_drain(shard_frame(clrid, error_payload(error_code)) + rest) == rest,
{
    let payload = error_payload(error_code);
    assert(payload.len() == 22);
    framed_payload_is_drained(clrid, payload, rest, ended);
    assert(payload[0] == 5);
    assert(payload[6] == 1 && payload[7] == 0);
    assert(le16_at(payload, 6) == 1);
}

/// Bytes that arrive later do not change what was drained.
pub proof fn draining_is_final(buf: Seq<u8>, more: Seq<u8>, ended: bool)
    requires
        drained(buf, false) !is NeedMore,
    ensures
        drained(buf + more, ended) == drained(buf, false),
        left_after_drain(buf + more) == left_after_drain(buf) + more,
{
    let all = buf + more;
    assert(le32_at(all, 5) == le32_at(buf, 5));
    if has_response(buf) {
        assert(all.take(response_len(buf)) =~= buf.take(response_len(buf)));
        assert(all.skip(response_len(buf)) =~= buf.skip(response_len(buf)) + more);
    } else {
        assert(left_after_drain(all) == all);
    }
}

} // verus!
