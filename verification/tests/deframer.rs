//! Finding records in a stream.

use quic_ech_proxy::deframer::{fuzz_deframer, ContentType, HandshakeDeframer};
use quic_ech_proxy::error::{Error, InvalidMessage};
use quic_ech_proxy::frontend::wrap_handshake_in_record;

#[test]
fn iterator_empty_before_header_received() {
    assert!(HandshakeDeframer::default().deframe(&mut []).is_none());
    assert!(HandshakeDeframer::default().deframe(&mut [0x16]).is_none());
    assert!(HandshakeDeframer::default().deframe(&mut [0x16, 0x03]).is_none());
    assert!(HandshakeDeframer::default().deframe(&mut [0x16, 0x03, 0x03]).is_none());
    assert!(HandshakeDeframer::default().deframe(&mut [0x16, 0x03, 0x03, 0x00]).is_none());
    assert!(HandshakeDeframer::default().deframe(&mut [0x16, 0x03, 0x03, 0x00, 0x01]).is_none());
}

#[test]
fn iterate_one_message() {
    let mut buffer = [0x17, 0x03, 0x03, 0x00, 0x01, 0x00];
    let mut deframer = HandshakeDeframer::default();

    let (message, bounds) = deframer.deframe(&mut buffer).unwrap().unwrap();

    assert_eq!(message.typ, ContentType::ApplicationData);
    assert_eq!(bounds.end, 6);
    assert!(deframer.deframe(&mut buffer).is_none());
}

#[test]
fn iterate_two_messages() {
    let mut buffer = [0x16, 0x03, 0x03, 0x00, 0x01, 0x00, 0x17, 0x03, 0x03, 0x00, 0x01, 0x00];
    let mut deframer = HandshakeDeframer::default();

    let (message, bounds) = deframer.deframe(&mut buffer).unwrap().unwrap();

    assert_eq!(message.typ, ContentType::Handshake);
    assert_eq!(bounds.end, 6);

    let (message, bounds) = deframer.deframe(&mut buffer).unwrap().unwrap();

    assert_eq!(message.typ, ContentType::ApplicationData);
    assert_eq!(bounds.end, 12);
    assert!(deframer.deframe(&mut buffer).is_none());
}

#[test]
fn iterator_invalid_protocol_version_rejected() {
    let mut buffer = vec![0x16, 0x00, 0x03, 0x00, 0x01, 0x00];
    let mut deframer = HandshakeDeframer::default();
    let result = deframer.deframe(&mut buffer).unwrap();
    assert_eq!(
        result.err(),
        Some(Error::InvalidMessage(InvalidMessage::UnknownProtocolVersion))
    );
}

#[test]
fn iterator_invalid_content_type_rejected() {
    let mut buffer = vec![0xff, 0x03, 0x03, 0x00, 0x01, 0x00];
    let mut deframer = HandshakeDeframer::default();
    let result = deframer.deframe(&mut buffer).unwrap();
    assert_eq!(
        result.err(),
        Some(Error::InvalidMessage(InvalidMessage::InvalidContentType))
    );
}

#[test]
fn iterator_excess_message_length_rejected() {
    let mut buffer = vec![0x16, 0x03, 0x03, 0xff, 0xff, 0x00];
    let mut deframer = HandshakeDeframer::default();
    let result = deframer.deframe(&mut buffer).unwrap();
    assert_eq!(
        result.err(),
        Some(Error::InvalidMessage(InvalidMessage::MessageTooLarge))
    );
}

#[test]
fn iterator_zero_message_length_rejected() {
    let mut buffer = vec![0x16, 0x03, 0x03, 0x00, 0x00];
    let mut deframer = HandshakeDeframer::default();
    let result = deframer.deframe(&mut buffer).unwrap();
    assert_eq!(
        result.err(),
        Some(Error::InvalidMessage(InvalidMessage::InvalidEmptyPayload))
    );
}

#[test]
fn iterator_over_many_messages() {
    let hello: Vec<u8> = [&[0x01u8, 0x00, 0x00, 0xf0][..], &[0x5a; 0xf0]].concat();
    let client_hello = wrap_handshake_in_record(0x0301, &hello);
    let mut buffer = Vec::with_capacity(3 * client_hello.len());
    buffer.extend(&client_hello);
    buffer.extend(&client_hello);
    buffer.extend(&client_hello);
    let mut deframer = HandshakeDeframer::default();
    let mut count = 0;
    let mut end = 0;

    while let Some(result) = deframer.deframe(&mut buffer) {
        let (message, bounds) = result.unwrap();
        assert_eq!(ContentType::Handshake, message.typ);
        assert_eq!(message.payload, &hello[..]);
        assert_eq!(message.version, 0x0301);
        count += 1;
        end = bounds.end;
    }

    assert_eq!(count, 3);
    assert_eq!(client_hello.len() * 3, end);
    assert_eq!(deframer.processed(), end);
}

#[test]
fn exercise_fuzz_deframer() {
    fuzz_deframer(&[0xff, 0xff, 0xff, 0xff, 0xff]);
    for prefix in 0..7 {
        fuzz_deframer(&[0x16, 0x03, 0x03, 0x00, 0x01, 0xff][..prefix]);
    }
}

#[test]
fn complete_records_are_counted() {
    let mut data = wrap_handshake_in_record(0x0303, &[1, 2, 3]);
    data.extend(wrap_handshake_in_record(0x0303, &[4]));
    let complete = data.len();
    data.extend([0x17, 0x03, 0x03, 0x00, 0x05, 0x00]);
    assert_eq!(fuzz_deframer(&data), complete);
    data[complete] = 0xff;
    assert_eq!(fuzz_deframer(&data), complete);
    assert_eq!(fuzz_deframer(&[]), 0);
}

#[test]
fn limits_of_a_record() {
    // The longest record that is read, and an empty one where that is allowed.
    let mut longest = vec![0x16, 0x03, 0x03, 0x47, 0xff];
    longest.extend(vec![0u8; 18431]);
    assert_eq!(fuzz_deframer(&longest), 5 + 18431);
    let mut deframer = HandshakeDeframer::default();
    assert_eq!(
        deframer.deframe(&[0x16, 0x03, 0x03, 0x48, 0x00]).unwrap().err(),
        Some(Error::InvalidMessage(InvalidMessage::MessageTooLarge))
    );
    assert_eq!(fuzz_deframer(&[0x17, 0x03, 0x03, 0x00, 0x00]), 5);
    for typ in [0x14, 0x15, 0x18] {
        assert_eq!(fuzz_deframer(&[typ, 0x03, 0x04, 0x00, 0x01, 0x00]), 6);
    }
    assert_eq!(fuzz_deframer(&[0x19, 0x03, 0x04, 0x00, 0x01, 0x00]), 0);
}
