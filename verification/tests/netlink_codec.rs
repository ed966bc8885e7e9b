use ifprobe::netlink::{
    build_dump_request, collect_dump, drain_datagram, parse_header_at, serialize_header,
    serialize_request, NlHeader, StreamError,
};
use netlink_packet_core::{NetlinkMessage, NLM_F_DUMP, NLM_F_REQUEST};
use netlink_packet_route::{AddressMessage, RtnlMessage};

/// A minimal "new address" data frame: 16-byte header, type 20
/// (`RTM_NEWADDR`), and an all-zero 8-byte address payload.
fn data_frame(seq: u32) -> Vec<u8> {
    let mut f = vec![24, 0, 0, 0, 20, 0, 2, 0];
    f.extend_from_slice(&seq.to_le_bytes());
    f.extend_from_slice(&[0; 4]);
    f.extend_from_slice(&[0; 8]);
    f
}

/// A "Done" marker frame: a bare 16-byte header with type 3 (`NLMSG_DONE`).
fn done_frame(seq: u32) -> Vec<u8> {
    let mut f = vec![16, 0, 0, 0, 3, 0, 2, 0];
    f.extend_from_slice(&seq.to_le_bytes());
    f.extend_from_slice(&[0; 4]);
    f
}

#[test]
fn request_bytes_match_reference_serializer() {
    let mut req = NetlinkMessage::from(RtnlMessage::GetAddress(AddressMessage::default()));
    req.header.sequence_number = 1;
    req.header.flags = NLM_F_REQUEST | NLM_F_DUMP;
    req.finalize();
    let mut reference = vec![0; req.header.length as usize];
    req.serialize(&mut reference);

    let ours = serialize_request(&build_dump_request(1));
    assert_eq!(ours, reference);
}

#[test]
fn request_has_expected_wire_format() {
    let req = build_dump_request(7);
    assert_eq!(req.header.length, 24);
    assert_eq!(req.header.message_type, 22);
    assert_eq!(req.header.flags, 0x0301);
    let bytes = serialize_request(&req);
    assert_eq!(
        bytes,
        vec![24, 0, 0, 0, 22, 0, 1, 3, 7, 0, 0, 0, 0, 0, 0, 0, 0, 0, 0, 0, 0, 0, 0, 0]
    );
}

#[test]
fn header_serialize_then_parse_is_identity() {
    let h = NlHeader {
        length: 40,
        message_type: 18,
        flags: 0x0301,
        sequence_number: 1_526_271_540,
        port_number: 0,
    };
    let mut buf = Vec::new();
    serialize_header(&mut buf, &h);
    assert_eq!(buf.len(), 16);
    let back = parse_header_at(&buf, 0);
    assert_eq!(back, h);
}

#[test]
fn request_serialized_then_deserialized_keeps_header_fields() {
    let req = build_dump_request(99);
    let bytes = serialize_request(&req);
    let back = parse_header_at(&bytes, 0);
    assert_eq!(back, req.header);

    // and the reference deserializer reads the same fields
    let packet = NetlinkMessage::<RtnlMessage>::deserialize(&bytes).unwrap();
    assert_eq!(packet.header.message_type, req.header.message_type);
    assert_eq!(packet.header.flags, req.header.flags);
    assert_eq!(packet.header.sequence_number, req.header.sequence_number);
    assert_eq!(packet.header.length, req.header.length);
}

#[test]
fn drain_two_messages_second_done_yields_one_record() {
    let mut buf = data_frame(1);
    buf.extend_from_slice(&done_frame(1));
    let out = drain_datagram(&buf).unwrap();
    assert!(out.done);
    assert_eq!(out.records, vec![vec![0u8; 8]]);
}

#[test]
fn drain_stops_at_done_and_never_yields_it() {
    let mut buf = done_frame(1);
    buf.extend_from_slice(&data_frame(1));
    let out = drain_datagram(&buf).unwrap();
    assert!(out.done);
    assert_eq!(out.records.len(), 0);
}

#[test]
fn drain_without_done_keeps_all_records() {
    let mut buf = data_frame(1);
    buf.extend_from_slice(&data_frame(2));
    let out = drain_datagram(&buf).unwrap();
    assert!(!out.done);
    assert_eq!(out.records.len(), 2);
}

#[test]
fn drain_empty_buffer_is_empty_and_not_done() {
    let out = drain_datagram(&[]).unwrap();
    assert!(!out.done);
    assert_eq!(out.records.len(), 0);
}

#[test]
fn drain_truncated_frame_is_an_error() {
    // length field says 40 but only 24 bytes are present
    let mut buf = data_frame(1);
    buf[0] = 40;
    assert_eq!(drain_datagram(&buf).unwrap_err(), StreamError::Truncated);

    // fewer bytes than one header
    assert_eq!(drain_datagram(&[40, 0, 0]).unwrap_err(), StreamError::Truncated);

    // length field shorter than a header
    let mut buf = done_frame(1);
    buf[0] = 8;
    assert_eq!(drain_datagram(&buf).unwrap_err(), StreamError::Truncated);
}

#[test]
fn drain_undecodable_payload_is_an_error() {
    // a well-framed message of type 20 whose 4-byte payload is too short for
    // an address message, so the reference decoder rejects it
    let mut buf = data_frame(1);
    buf.truncate(20);
    buf[0] = 20;
    assert_eq!(drain_datagram(&buf).unwrap_err(), StreamError::Undecodable);
}

#[test]
fn collect_gathers_across_receives_until_done() {
    let bufs = vec![data_frame(1), data_frame(2), done_frame(3)];
    let out = collect_dump(&bufs).unwrap();
    assert!(out.done);
    assert_eq!(out.records.len(), 2);

    let out = collect_dump(&vec![data_frame(1)]).unwrap();
    assert!(!out.done);
    assert_eq!(out.records.len(), 1);

    let mut both = data_frame(1);
    both.extend_from_slice(&done_frame(2));
    let out = collect_dump(&vec![both, data_frame(9)]).unwrap();
    assert!(out.done);
    assert_eq!(out.records.len(), 1);
}
