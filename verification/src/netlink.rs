//! The netlink address-dump protocol: request construction and byte-level
//! serialization, and the draining of the length-framed response stream.

use netlink_packet_core::{NetlinkMessage, NetlinkPayload};
use netlink_packet_route::RtnlMessage;
use vstd::prelude::*;
use vstd::slice::{slice_subrange, slice_to_vec};

verus! {

/// `NLM_F_REQUEST`: the message is a request.
pub const NL_FLAG_REQUEST: u16 = 1;

/// `NLM_F_DUMP` (`NLM_F_ROOT | NLM_F_MATCH`): return all matching entries.
pub const NL_FLAG_DUMP: u16 = 768;

/// `RTM_GETADDR`: the routing-netlink "get address" request type.
pub const RTM_GETADDR: u16 = 22;

/// `NLMSG_DONE`: the type of the message that terminates a dump.
pub const NLMSG_DONE: u16 = 3;

/// The length of a serialized netlink header in bytes.
pub const HEADER_LEN: u32 = 16;

/// The length of a serialized address-dump request payload in bytes: an
/// all-zero address header (family, prefix length, flags, scope, index),
/// meaning "all addresses".
pub const ADDRESS_PAYLOAD_LEN: u32 = 8;

/// A netlink message header: five little-endian fields in sixteen bytes.
#[derive(Clone, Copy, Debug, PartialEq, Eq, Structural)]
pub struct NlHeader {
    /// Total length of the message in bytes, header included.
    pub length: u32,
    /// Message type code.
    pub message_type: u16,
    /// Flag bits.
    pub flags: u16,
    /// Correlation value chosen by the sender.
    pub sequence_number: u32,
    /// Port (process) identifier; zero for the kernel exchange here.
    pub port_number: u32,
}

/// The two bytes of `v` least significant first.
pub open spec fn le16(v: u16) -> Seq<u8> {
    seq![(v as int % 256) as u8, (v as int / 256) as u8]
}

/// The four bytes of `v` least significant first.
pub open spec fn le32(v: u32) -> Seq<u8> {
    seq![
        (v as int % 256) as u8,
        ((v as int / 256) % 256) as u8,
        ((v as int / 65536) % 256) as u8,
        (v as int / 16777216) as u8,
    ]
}

/// The sixteen serialized bytes of the header `h`.
pub open spec fn header_bytes(h: NlHeader) -> Seq<u8> {
    le32(h.length) + le16(h.message_type) + le16(h.flags) + le32(h.sequence_number) + le32(
        h.port_number,
    )
}

/// The `u16` stored least significant byte first at offset `i` of `b`.
pub open spec fn u16_at(b: Seq<u8>, i: int) -> u16 {
    (b[i] as int + b[i + 1] as int * 256) as u16
}

/// The `u32` stored least significant byte first at offset `i` of `b`.
pub open spec fn u32_at(b: Seq<u8>, i: int) -> u32 {
    (b[i] as int + b[i + 1] as int * 256 + b[i + 2] as int * 65536 + b[i + 3] as int
        * 16777216) as u32
}

/// The header whose sixteen serialized bytes sit at offset `i` of `b`.
pub open spec fn header_at(b: Seq<u8>, i: int) -> NlHeader {
    NlHeader {
        length: u32_at(b, i),
        message_type: u16_at(b, i + 4),
        flags: u16_at(b, i + 6),
        sequence_number: u32_at(b, i + 8),
        port_number: u32_at(b, i + 12),
    }
}

/// Reading two little-endian bytes back gives the value they serialize.
proof fn lemma_le16_roundtrip(v: u16)
    ensures
        u16_at(le16(v), 0) == v,
{
    assert(v as int % 256 + (v as int / 256) * 256 == v as int) by (nonlinear_arith);
}

/// Reading four little-endian bytes back gives the value they serialize.
proof fn lemma_le32_roundtrip(v: u32)
    ensures
        u32_at(le32(v), 0) == v,
{
    assert(v as int % 256 + ((v as int / 256) % 256) * 256 + ((v as int / 65536) % 256) * 65536 + (
    v as int / 16777216) * 16777216 == v as int) by (nonlinear_arith)
        requires
            0 <= v < 4294967296,
    ;
}

/// Serialization then deserialization of a header returns it unchanged.
pub proof fn lemma_header_roundtrip(h: NlHeader)
    ensures
        header_at(header_bytes(h), 0) == h,
{
    let b = header_bytes(h);
    lemma_le32_roundtrip(h.length);
    lemma_le16_roundtrip(h.message_type);
    lemma_le16_roundtrip(h.flags);
    lemma_le32_roundtrip(h.sequence_number);
    lemma_le32_roundtrip(h.port_number);
    assert(u32_at(b, 0) == u32_at(le32(h.length), 0));
    assert(u16_at(b, 4) == u16_at(le16(h.message_type), 0));
    assert(u16_at(b, 6) == u16_at(le16(h.flags), 0));
    assert(u32_at(b, 8) == u32_at(le32(h.sequence_number), 0));
    assert(u32_at(b, 12) == u32_at(le32(h.port_number), 0));
}

fn le16_push(out: &mut Vec<u8>, v: u16)
    ensures
        final(out)@ == old(out)@ + le16(v),
{
    out.push((v % 256) as u8);
    out.push((v / 256) as u8);
    assert(out@ =~= old(out)@ + le16(v));
}

fn le32_push(out: &mut Vec<u8>, v: u32)
    ensures
        final(out)@ == old(out)@ + le32(v),
{
    out.push((v % 256) as u8);
    out.push(((v / 256) % 256) as u8);
    out.push(((v / 65536) % 256) as u8);
    out.push((v / 16777216) as u8);
    assert(out@ =~= old(out)@ + le32(v));
}

/// Append the sixteen serialized bytes of `h` to `out`.
pub fn serialize_header(out: &mut Vec<u8>, h: &NlHeader)
    ensures
        final(out)@ == old(out)@ + header_bytes(*h),
{
    le32_push(out, h.length);
    le16_push(out, h.message_type);
    le16_push(out, h.flags);
    le32_push(out, h.sequence_number);
    le32_push(out, h.port_number);
    assert(out@ =~= old(out)@ + header_bytes(*h));
}

/// Read the header serialized at offset `at` of `buf`.
pub fn parse_header_at(buf: &[u8], at: usize) -> (h: NlHeader)
    requires
        at + 16 <= buf@.len(),
    ensures
        h == header_at(buf@, at as int),
{
    let b0 = buf[at] as u32;
    let b1 = buf[at + 1] as u32;
    let b2 = buf[at + 2] as u32;
    let b3 = buf[at + 3] as u32;
    let length = b0 + b1 * 256 + b2 * 65536 + b3 * 16777216;
    let message_type = buf[at + 4] as u16 + buf[at + 5] as u16 * 256;
    let flags = buf[at + 6] as u16 + buf[at + 7] as u16 * 256;
    let s0 = buf[at + 8] as u32;
    let s1 = buf[at + 9] as u32;
    let s2 = buf[at + 10] as u32;
    let s3 = buf[at + 11] as u32;
    let sequence_number = s0 + s1 * 256 + s2 * 65536 + s3 * 16777216;
    let p0 = buf[at + 12] as u32;
    let p1 = buf[at + 13] as u32;
    let p2 = buf[at + 14] as u32;
    let p3 = buf[at + 15] as u32;
    let port_number = p0 + p1 * 256 + p2 * 65536 + p3 * 16777216;
    NlHeader { length, message_type, flags, sequence_number, port_number }
}

/// A finalized address-dump request: a netlink header over an all-zero
/// eight-byte address payload, meaning "all addresses".
#[derive(Clone, Copy, Debug, PartialEq, Eq, Structural)]
pub struct DumpRequest {
    pub header: NlHeader,
}

/// The header of the address-dump request with sequence number `seq`: the
/// "get address" type, the REQUEST and DUMP flags, and a length field equal
/// to the serialized byte length of header plus payload.
pub open spec fn dump_request_header(seq: u32) -> NlHeader {
    NlHeader {
        length: (HEADER_LEN + ADDRESS_PAYLOAD_LEN) as u32,
        message_type: RTM_GETADDR,
        flags: (NL_FLAG_REQUEST + NL_FLAG_DUMP) as u16,
        sequence_number: seq,
        port_number: 0,
    }
}

/// The serialized bytes of the dump request with header `h`: the sixteen
/// header bytes, then the eight zero payload bytes.
pub open spec fn request_bytes(h: NlHeader) -> Seq<u8> {
    header_bytes(h) + seq![0u8, 0u8, 0u8, 0u8, 0u8, 0u8, 0u8, 0u8]
}

/// Construct the finalized address-dump request with sequence number `seq`.
/// Its length field equals the byte length of its serialization.
pub fn build_dump_request(seq: u32) -> (r: DumpRequest)
    ensures
        r.header == dump_request_header(seq),
        r.header.length as int == request_bytes(r.header).len(),
{
    DumpRequest {
        header: NlHeader {
            length: HEADER_LEN + ADDRESS_PAYLOAD_LEN,
            message_type: RTM_GETADDR,
            flags: NL_FLAG_REQUEST + NL_FLAG_DUMP,
            sequence_number: seq,
            port_number: 0,
        },
    }
}

/// Serialize the request into a transmit buffer sized exactly to its
/// header's length field.
pub fn serialize_request(req: &DumpRequest) -> (out: Vec<u8>)
    ensures
        out@ == request_bytes(req.header),
        out@.len() == 24,
{
    let mut out: Vec<u8> = Vec::new();
    serialize_header(&mut out, &req.header);
    let mut i: usize = 0;
    while i < 8
        invariant
            out@ == header_bytes(req.header) + Seq::<u8>::new(i as nat, |j: int| 0u8),
            i <= 8,
        decreases 8 - i,
    {
        out.push(0);
        proof {
            assert(Seq::<u8>::new(i as nat, |j: int| 0u8).push(0u8) =~= Seq::<u8>::new(
                i as nat + 1,
                |j: int| 0u8,
            ));
        }
        i = i + 1;
    }
    proof {
        assert(Seq::<u8>::new(8, |j: int| 0u8) =~= seq![0u8, 0u8, 0u8, 0u8, 0u8, 0u8, 0u8, 0u8]);
    }
    out
}

/// The first sixteen bytes of a serialization carry the header, whatever
/// follows them.
pub proof fn lemma_header_at_prefix(h: NlHeader, rest: Seq<u8>)
    ensures
        header_at(header_bytes(h) + rest, 0) == h,
{
    lemma_header_roundtrip(h);
    let a = header_bytes(h);
    let b = a + rest;
    assert(u32_at(b, 0) == u32_at(a, 0));
    assert(u16_at(b, 4) == u16_at(a, 4));
    assert(u16_at(b, 6) == u16_at(a, 6));
    assert(u32_at(b, 8) == u32_at(a, 8));
    assert(u32_at(b, 12) == u32_at(a, 12));
}

/// Law: a constructed dump request, serialized then deserialized, has
/// exactly the header fields it was built with.
pub proof fn lemma_dump_request_roundtrip(seq: u32)
    ensures
        header_at(request_bytes(dump_request_header(seq)), 0) == dump_request_header(seq),
{
    lemma_header_at_prefix(dump_request_header(seq), seq![0u8, 0u8, 0u8, 0u8, 0u8, 0u8, 0u8, 0u8]);
}

/// How one framed message of the response stream decodes.
#[derive(Clone, Copy, Debug, PartialEq, Eq, Structural)]
pub enum FrameKind {
    /// The terminal marker of a dump (`NLMSG_DONE`).
    Done,
    /// A message to be ignored (`NLMSG_NOOP`).
    Noop,
    /// An acknowledgment: an error report with a non-negative code.
    Ack,
    /// An error report with a negative code (`NLMSG_ERROR`).
    Error,
    /// A buffer-overrun notice (`NLMSG_OVERRUN`).
    Overrun,
    /// A routing-protocol data message, e.g. an address record.
    Record,
}

/// How `NetlinkMessage::<RtnlMessage>::deserialize` decodes the frame `b`:
/// the kind of the decoded payload, or `None` where decoding fails.
pub uninterp spec fn rtnl_frame_kind(b: Seq<u8>) -> Option<FrameKind>;

/// Relies on `netlink_packet_core::NetlinkMessage::<RtnlMessage>::deserialize`:
/// the result depends on the frame's bytes alone.  Decoding fails unless the
/// buffer opens with a whole message: sixteen header bytes and a length field
/// between sixteen and the buffer length.  A frame that passes those checks
/// and carries the `NLMSG_DONE` type code decodes to the "Done" marker,
/// whatever its payload.
#[verifier::external_body]
fn decode_frame(frame: &[u8]) -> (r: Option<FrameKind>)
    ensures
        r == rtnl_frame_kind(frame@),
        frame@.len() < 16 ==> r is None,
        frame@.len() >= 16 && (u32_at(frame@, 0) < 16 || u32_at(frame@, 0) as int
            > frame@.len()) ==> r is None,
        frame@.len() >= 16 && 16 <= u32_at(frame@, 0) as int <= frame@.len() && u16_at(frame@, 4)
            == NLMSG_DONE ==> r == Some(FrameKind::Done),
{
    match NetlinkMessage::<RtnlMessage>::deserialize(frame) {
        Ok(m) => Some(
            match m.payload {
                NetlinkPayload::Done => FrameKind::Done,
                NetlinkPayload::Noop => FrameKind::Noop,
                NetlinkPayload::Ack(_) => FrameKind::Ack,
                NetlinkPayload::Error(_) => FrameKind::Error,
                NetlinkPayload::Overrun(_) => FrameKind::Overrun,
                NetlinkPayload::InnerMessage(_) => FrameKind::Record,
            },
        ),
        Err(_) => None,
    }
}

/// A failure of the response stream.  Every failure is surfaced; none is
/// papered over.
#[derive(Clone, Copy, Debug, PartialEq, Eq, Structural)]
pub enum StreamError {
    /// A frame is incomplete: fewer than sixteen bytes remain where a
    /// message should start, or the length field runs past the buffer or
    /// under the header length.
    Truncated,
    /// A whole frame was present but the routing-protocol decoder rejected
    /// it.
    Undecodable,
}

/// What draining the buffer `b` yields: the payload of each message before
/// the first "Done" marker, in order, and whether that marker was observed.
/// Bytes after a "Done" marker are not examined.
pub open spec fn spec_drain(b: Seq<u8>) -> Result<(Seq<Seq<u8>>, bool), StreamError>
    decreases b.len(),
{
    if b.len() == 0 {
        Ok((seq![], false))
    } else if b.len() < 16 {
        Err(StreamError::Truncated)
    } else {
        let len = u32_at(b, 0) as int;
        if len < 16 || len > b.len() {
            Err(StreamError::Truncated)
        } else {
            match rtnl_frame_kind(b.subrange(0, len)) {
                None => Err(StreamError::Undecodable),
                Some(k) => if k is Done {
                    Ok((seq![], true))
                } else {
                    match spec_drain(b.subrange(len, b.len() as int)) {
                        Err(e) => Err(e),
                        Ok(rest) => Ok((seq![b.subrange(16, len)] + rest.0, rest.1)),
                    }
                },
            }
        }
    }
}

/// What draining one receive buffer produced: the payloads of the data
/// messages in order, and whether the terminal "Done" marker was observed.
#[derive(Debug)]
pub struct DrainOutcome {
    pub records: Vec<Vec<u8>>,
    pub done: bool,
}

/// Drain one receive buffer: split it into its length-framed messages,
/// decode each, and collect the payload of every message up to the first
/// "Done" marker.
///
/// One receive buffer may hold several messages; the loop walks them in
/// order.  A frame that runs past the buffer, or is shorter than a header,
/// is a `Truncated` error; one the routing-protocol decoder rejects is an
/// `Undecodable` error.  A "Done" marker ends the walk at once and is not
/// yielded as a record.
pub fn drain_datagram(buf: &[u8]) -> (r: Result<DrainOutcome, StreamError>)
    ensures
        match spec_drain(buf@) {
            Ok(p) => r matches Ok(o) && o.records.deep_view() == p.0 && o.done == p.1,
            Err(e) => r matches Err(e2) && e2 == e,
        },
{
    let n = buf.len();
    let mut off: usize = 0;
    let mut records: Vec<Vec<u8>> = Vec::new();
    proof {
        assert(buf@.subrange(0, n as int) =~= buf@);
        assert(records.deep_view() =~= Seq::<Seq<u8>>::empty());
    }
    loop
        invariant
            off <= n == buf@.len(),
            match spec_drain(buf@.subrange(off as int, n as int)) {
                Ok(p) => spec_drain(buf@) matches Ok(q) && q.0 == records.deep_view() + p.0
                    && q.1 == p.1,
                Err(e) => spec_drain(buf@) matches Err(e2) && e2 == e,
            },
        decreases n - off,
    {
        let ghost suffix = buf@.subrange(off as int, n as int);
        if off == n {
            proof {
                assert(records.deep_view() + Seq::<Seq<u8>>::empty() =~= records.deep_view());
            }
            return Ok(DrainOutcome { records, done: false });
        }
        if n - off < 16 {
            return Err(StreamError::Truncated);
        }
        let h = parse_header_at(buf, off);
        proof {
            assert(u32_at(suffix, 0) == u32_at(buf@, off as int));
        }
        let mlen = h.length as usize;
        if mlen < 16 || mlen > n - off {
            return Err(StreamError::Truncated);
        }
        let frame = slice_subrange(buf, off, off + mlen);
        proof {
            assert(frame@ =~= suffix.subrange(0, mlen as int));
        }
        match decode_frame(frame) {
            None => {
                return Err(StreamError::Undecodable);
            },
            Some(k) => {
                if matches!(k, FrameKind::Done) {
                    proof {
                        assert(records.deep_view() + Seq::<Seq<u8>>::empty()
                            =~= records.deep_view());
                    }
                    return Ok(DrainOutcome { records, done: true });
                }
                let payload = slice_to_vec(slice_subrange(buf, off + 16, off + mlen));
                proof {
                    assert(payload@ =~= suffix.subrange(16, mlen as int));
                }
                let ghost prev = records.deep_view();
                records.push(payload);
                proof {
                    assert(records.deep_view() =~~= prev + seq![payload@]);
                    assert(buf@.subrange(off + mlen, n as int) =~= suffix.subrange(
                        mlen as int,
                        suffix.len() as int,
                    ));
                    if let Ok(p) = spec_drain(buf@.subrange(off + mlen, n as int)) {
                        assert(prev + (seq![payload@] + p.0) =~= (prev + seq![payload@]) + p.0);
                    }
                }
                off = off + mlen;
            },
        }
    }
}

/// The byte length of the frames that carried the payloads `rs`: each frame
/// is a sixteen-byte header followed by its payload.
pub open spec fn frames_span(rs: Seq<Seq<u8>>) -> int
    decreases rs.len(),
{
    if rs.len() == 0 {
        0
    } else {
        frames_span(rs.drop_last()) + 16 + rs.last().len()
    }
}

/// Whether a whole frame sits at offset `off` of `b`: sixteen header bytes
/// are present and the length field stays within the buffer.
pub open spec fn frame_starts_at(b: Seq<u8>, off: int) -> bool {
    &&& 0 <= off
    &&& off + 16 <= b.len()
    &&& 16 <= u32_at(b, off) as int
    &&& off + u32_at(b, off) as int <= b.len()
}

/// The frame at offset `off` of `b`: as many bytes as its length field says.
pub open spec fn frame_at(b: Seq<u8>, off: int) -> Seq<u8> {
    b.subrange(off, off + u32_at(b, off) as int)
}

/// Record `i` of a drain of `b` is the payload of the non-"Done" frame at
/// its position: the frame sits right after the frames of the earlier
/// records, decodes to some kind other than the "Done" marker, and the
/// record is its payload.
pub open spec fn record_comes_from_frame(b: Seq<u8>, rs: Seq<Seq<u8>>, i: int) -> bool {
    let off = frames_span(rs.take(i));
    &&& frame_starts_at(b, off)
    &&& (rtnl_frame_kind(frame_at(b, off)) matches Some(k) && !(k is Done))
    &&& rs[i] == frame_at(b, off).subrange(16, frame_at(b, off).len() as int)
}

proof fn lemma_frames_span_cons(head: Seq<u8>, rest: Seq<Seq<u8>>)
    ensures
        frames_span(seq![head] + rest) == 16 + head.len() + frames_span(rest),
    decreases rest.len(),
{
    if rest.len() == 0 {
        assert(seq![head] + rest =~= seq![head]);
        assert(seq![head].drop_last() =~= Seq::<Seq<u8>>::empty());
        assert(seq![head].last() == head);
        assert(frames_span(Seq::<Seq<u8>>::empty()) == 0);
    } else {
        lemma_frames_span_cons(head, rest.drop_last());
        assert((seq![head] + rest).drop_last() =~= seq![head] + rest.drop_last());
        assert((seq![head] + rest).last() == rest.last());
    }
}

/// Law: draining terminates exactly once a "Done" marker is observed, and
/// never yields that marker as a record.  When a drain succeeds, its records
/// are the payloads of the consecutive non-"Done" frames from the start of
/// the buffer; after them, either a "Done" frame was observed (`done` holds,
/// and that frame contributed no record) or the buffer ended with no "Done"
/// seen (`done` fails).
pub proof fn lemma_drain_stops_exactly_at_done(b: Seq<u8>)
    ensures
        match spec_drain(b) {
            Ok(p) => {
                &&& forall|i: int|
                    0 <= i < p.0.len() ==> #[trigger] record_comes_from_frame(b, p.0, i)
                &&& p.1 ==> frame_starts_at(b, frames_span(p.0)) && rtnl_frame_kind(
                    frame_at(b, frames_span(p.0)),
                ) == Some(FrameKind::Done)
                &&& !p.1 ==> frames_span(p.0) == b.len()
            },
            Err(e) => true,
        },
    decreases b.len(),
{
    if b.len() < 16 {
        // an empty buffer drains to no records, and anything shorter than a
        // header is an error
    } else {
        let len = u32_at(b, 0) as int;
        if len < 16 || len > b.len() {
            // truncated
        } else {
            match rtnl_frame_kind(b.subrange(0, len)) {
                None => {},
                Some(k) => {
                    if k is Done {
                        assert(frames_span(Seq::<Seq<u8>>::empty()) == 0);
                        assert(frame_at(b, 0) == b.subrange(0, len));
                    } else {
                        let b2 = b.subrange(len, b.len() as int);
                        lemma_drain_stops_exactly_at_done(b2);
                        match spec_drain(b2) {
                            Err(_) => {},
                            Ok(rest) => {
                                let pl = b.subrange(16, len);
                                let rs = seq![pl] + rest.0;
                                assert(16 + pl.len() == len);
                                assert forall|i: int| 0 <= i < rs.len() implies
                                    #[trigger] record_comes_from_frame(b, rs, i) by {
                                    if i == 0 {
                                        assert(rs.take(0) =~= Seq::<Seq<u8>>::empty());
                                        assert(frame_at(b, 0) == b.subrange(0, len));
                                        assert(frame_at(b, 0).subrange(16, len) =~= pl);
                                    } else {
                                        assert(record_comes_from_frame(b2, rest.0, i - 1));
                                        let off2 = frames_span(rest.0.take(i - 1));
                                        assert(rs.take(i) =~= seq![pl] + rest.0.take(i - 1));
                                        lemma_frames_span_cons(pl, rest.0.take(i - 1));
                                        assert(u32_at(b2, off2) == u32_at(b, len + off2));
                                        assert(frame_at(b2, off2) =~= frame_at(b, len + off2));
                                        assert(rs[i] == rest.0[i - 1]);
                                    }
                                }
                                lemma_frames_span_cons(pl, rest.0);
                                if rest.1 {
                                    let off2 = frames_span(rest.0);
                                    assert(u32_at(b2, off2) == u32_at(b, len + off2));
                                    assert(frame_at(b2, off2) =~= frame_at(b, len + off2));
                                }
                            },
                        }
                    }
                },
            }
        }
    }
}

/// What a whole receive session yields from the successive receive buffers
/// `bufs`: the records of each buffer in order, up to and including the
/// first buffer in which the "Done" marker is observed.  Buffers after that
/// one are not examined; if no buffer shows the marker, the session ends
/// with `done` false.
pub open spec fn spec_collect(bufs: Seq<Seq<u8>>) -> Result<(Seq<Seq<u8>>, bool), StreamError>
    decreases bufs.len(),
{
    if bufs.len() == 0 {
        Ok((seq![], false))
    } else {
        match spec_drain(bufs[0]) {
            Err(e) => Err(e),
            Ok(p) => if p.1 {
                Ok((p.0, true))
            } else {
                match spec_collect(bufs.drop_first()) {
                    Err(e) => Err(e),
                    Ok(q) => Ok((p.0 + q.0, q.1)),
                }
            },
        }
    }
}

/// Run the drain over a whole receive session: `bufs` holds what each
/// successive receive call produced, and the result gathers every data
/// record up to the first "Done" marker, exactly as `spec_collect` says.
///
/// The caller keeps receiving exactly while `done` is false; a missing
/// marker must be bounded by the caller (a receive-count or time limit),
/// since the stream alone would never end.
pub fn collect_dump(bufs: &Vec<Vec<u8>>) -> (r: Result<DrainOutcome, StreamError>)
    ensures
        match spec_collect(bufs.deep_view()) {
            Ok(p) => r matches Ok(o) && o.records.deep_view() == p.0 && o.done == p.1,
            Err(e) => r matches Err(e2) && e2 == e,
        },
{
    let ghost s = bufs.deep_view();
    let n = bufs.len();
    let mut idx: usize = 0;
    let mut acc: Vec<Vec<u8>> = Vec::new();
    proof {
        assert(s.subrange(0, n as int) =~= s);
        assert(acc.deep_view() =~= Seq::<Seq<u8>>::empty());
    }
    loop
        invariant
            idx <= n == bufs@.len(),
            s == bufs.deep_view(),
            match spec_collect(s.subrange(idx as int, n as int)) {
                Ok(p) => spec_collect(s) matches Ok(q) && q.0 == acc.deep_view() + p.0 && q.1
                    == p.1,
                Err(e) => spec_collect(s) matches Err(e2) && e2 == e,
            },
        decreases n - idx,
    {
        let ghost tail = s.subrange(idx as int, n as int);
        if idx == n {
            proof {
                assert(acc.deep_view() + Seq::<Seq<u8>>::empty() =~= acc.deep_view());
            }
            return Ok(DrainOutcome { records: acc, done: false });
        }
        proof {
            assert(tail[0] =~= bufs@[idx as int]@);
            assert(tail.drop_first() =~= s.subrange(idx as int + 1, n as int));
        }
        match drain_datagram(bufs[idx].as_slice()) {
            Err(e) => {
                return Err(e);
            },
            Ok(mut o) => {
                let ghost prev = acc.deep_view();
                let ghost got = o.records.deep_view();
                acc.append(&mut o.records);
                proof {
                    assert(acc.deep_view() =~~= prev + got);
                }
                if o.done {
                    return Ok(DrainOutcome { records: acc, done: true });
                }
                proof {
                    if let Ok(p) = spec_collect(s.subrange(idx as int + 1, n as int)) {
                        assert(prev + (got + p.0) =~= (prev + got) + p.0);
                    }
                }
                idx = idx + 1;
            },
        }
    }
}

} // verus!
