//! QUIC Initial packets, CRYPTO frames and the integers in them.

use quic_ech_proxy::crypto_frames::{parse_crypto_frames, CryptoAssembler, CryptoSegment};
use quic_ech_proxy::error::PacketError;
use quic_ech_proxy::initial_keys::{
    compute_hp_mask, derive_client_initial_keys, hkdf_expand_label, hkdf_label,
};
use quic_ech_proxy::quic_packet::{
    decrypt_initial, encrypt_initial, is_long_header, open_initial, parse_initial_layout,
    parse_long_header_dcid, InitialHeader, MIN_INITIAL_SIZE, QUIC_V1, QUIC_V1_SALT, QUIC_V2,
    QUIC_V2_SALT,
};
use quic_ech_proxy::varint::{read_varint, write_varint};
use ring::aead::{Aad, LessSafeKey, Nonce, UnboundKey, AES_128_GCM};

fn hex(b: &[u8]) -> String {
    b.iter().map(|x| format!("{x:02x}")).collect()
}

fn unhex(s: &str) -> Vec<u8> {
    (0..s.len() / 2).map(|i| u8::from_str_radix(&s[2 * i..2 * i + 2], 16).unwrap()).collect()
}

fn header(version: u32, packet_number: u32) -> InitialHeader {
    InitialHeader {
        version,
        dcid: unhex("8394c8f03e515708"),
        scid: vec![0xc1, 0xc2, 0xc3],
        token: vec![0x70, 0x71],
        packet_number,
        salt: if version == QUIC_V2 { QUIC_V2_SALT } else { QUIC_V1_SALT },
    }
}

/// A client's Initial packet with the given payload, protected as RFC 9001 says.
fn client_initial(h: &InitialHeader, pn_len: usize, frames: &[u8]) -> Vec<u8> {
    let (key, iv, hp_key) = derive_client_initial_keys(&h.dcid, &h.salt).unwrap();
    let mut packet = vec![0xc0 | (pn_len as u8 - 1)];
    if h.version == QUIC_V2 {
        packet[0] |= 0x10;
    }
    packet.extend_from_slice(&h.version.to_be_bytes());
    packet.push(h.dcid.len() as u8);
    packet.extend_from_slice(&h.dcid);
    packet.push(h.scid.len() as u8);
    packet.extend_from_slice(&h.scid);
    write_varint(&mut packet, h.token.len() as u64);
    packet.extend_from_slice(&h.token);
    write_varint(&mut packet, (pn_len + frames.len() + 16) as u64);
    let header_len = packet.len();
    packet.extend_from_slice(&h.packet_number.to_be_bytes()[4 - pn_len..]);

    let mut nonce = iv;
    for (i, b) in (h.packet_number as u64).to_be_bytes().iter().enumerate() {
        nonce[4 + i] ^= b;
    }
    let sealing = LessSafeKey::new(UnboundKey::new(&AES_128_GCM, &key).unwrap());
    let mut body = frames.to_vec();
    sealing
        .seal_in_place_append_tag(
            Nonce::assume_unique_for_key(nonce),
            Aad::from(packet.clone()),
            &mut body,
        )
        .unwrap();
    packet.extend_from_slice(&body);

    let mask = compute_hp_mask(&hp_key, &packet[header_len + 4..header_len + 20]).unwrap();
    packet[0] ^= mask[0] & 0x0f;
    for i in 0..pn_len {
        packet[header_len + i] ^= mask[1 + i];
    }
    packet
}

fn crypto_frame(offset: u64, data: &[u8]) -> Vec<u8> {
    let mut frame = vec![0x06];
    write_varint(&mut frame, offset);
    write_varint(&mut frame, data.len() as u64);
    frame.extend_from_slice(data);
    frame
}

fn pair(s: &CryptoSegment) -> (usize, Vec<u8>) {
    (s.offset, s.data.clone())
}

#[test]
fn test_varint_roundtrip() {
    for &val in &[0u64, 37, 15293, 494878333] {
        let mut buf = Vec::new();
        write_varint(&mut buf, val);
        let (decoded, _) = read_varint(&buf, 0).unwrap();
        assert_eq!(decoded, val);
    }
}

#[test]
fn test_rfc9001_key_derivation() {
    // RFC 9001 Appendix A.1: DCID = 0x8394c8f03e515708
    let dcid = [0x83, 0x94, 0xc8, 0xf0, 0x3e, 0x51, 0x57, 0x08];
    let (key, iv, hp) = derive_client_initial_keys(&dcid, &QUIC_V1_SALT).unwrap();

    assert_eq!(hex(&key), "1f369613dd76d5467730efcbe3b1a22d");
    assert_eq!(hex(&iv), "fa044b2f42a3fd3b46fb255c");
    assert_eq!(hex(&hp), "9f50449e04a0e810283a1e9933adedd2");
}

#[test]
fn varints_have_the_shortest_form() {
    for (value, bytes) in [
        (0u64, "00"),
        (63, "3f"),
        (64, "4040"),
        (16383, "7fff"),
        (16384, "80004000"),
        (0x3fff_ffff, "bfffffff"),
        (0x4000_0000, "c000000040000000"),
        (0x3fff_ffff_ffff_ffff, "ffffffffffffffff"),
    ] {
        let mut buf = vec![0xee];
        write_varint(&mut buf, value);
        assert_eq!(hex(&buf[1..]), bytes);
        assert_eq!(read_varint(&buf, 1), Ok((value, bytes.len() / 2)));
    }
}

#[test]
fn varints_beyond_the_data_are_refused() {
    assert_eq!(read_varint(&[], 0), Err(PacketError::VarintBeyondData));
    assert_eq!(read_varint(&[0x01], 1), Err(PacketError::VarintBeyondData));
    assert_eq!(read_varint(&[0x40], 0), Err(PacketError::VarintTruncated));
    assert_eq!(read_varint(&[0xc0, 0, 0, 0, 0, 0, 0], 0), Err(PacketError::VarintTruncated));
}

#[test]
fn labels_are_laid_out_as_in_tls13() {
    // RFC 9001 Appendix A.1.
    assert_eq!(hex(&hkdf_label(32, b"client in", &[])), "00200f746c73313320636c69656e7420696e00");
    assert_eq!(hex(&hkdf_label(16, b"quic key", &[])), "00100e746c7331332071756963206b657900");
    assert_eq!(
        hex(&hkdf_label(8, b"x", &[0xaa, 0xbb])),
        "000807746c7331332078".to_owned() + "02aabb"
    );
}

#[test]
fn expansion_of_more_than_255_blocks_is_refused() {
    let secret = [7u8; 32];
    assert_eq!(hkdf_expand_label(&secret, b"quic key", 8160).unwrap().len(), 8160);
    assert_eq!(
        hkdf_expand_label(&secret, b"quic key", 8161),
        Err(PacketError::KeyDerivationFailed)
    );
}

#[test]
fn client_secret_expands_to_the_quic_key() {
    // RFC 9001 Appendix A.1.
    let secret = unhex("c00cf151ca5be075ed0ebfb5c80323c42d6b7db67881289af4008f1f6c357aea");
    assert_eq!(
        hex(&hkdf_expand_label(&secret, b"quic key", 16).unwrap()),
        "1f369613dd76d5467730efcbe3b1a22d"
    );
}

#[test]
fn header_mask_of_a_sample() {
    // RFC 9001 Appendix A.2.
    let mut hp_key = [0u8; 16];
    hp_key.copy_from_slice(&unhex("9f50449e04a0e810283a1e9933adedd2"));
    let sample = unhex("d1b1c98dd7689fb8ec11d242b123dc9b");
    assert_eq!(hex(&compute_hp_mask(&hp_key, &sample).unwrap()), "437b9aec36");
}

#[test]
fn decrypts_a_client_initial() {
    for version in [QUIC_V1, QUIC_V2] {
        for pn_len in 1..=4 {
            let h = header(version, 0x5a);
            let mut frames = vec![0x01, 0x00];
            frames.extend(crypto_frame(3, b"lo"));
            frames.extend([0u8; 9]);
            frames.extend(crypto_frame(0, b"hel"));
            frames.extend([0u8; 50]);
            let packet = client_initial(&h, pn_len, &frames);
            let d = decrypt_initial(&packet).unwrap().unwrap();
            assert_eq!(d.header.version, version);
            assert_eq!(d.header.dcid, h.dcid);
            assert_eq!(d.header.scid, h.scid);
            assert_eq!(d.header.token, h.token);
            assert_eq!(d.header.packet_number, 0x5a);
            assert_eq!(d.header.salt, h.salt);
            let segments: Vec<_> = d.crypto_segments.iter().map(pair).collect();
            assert_eq!(segments, vec![(3, b"lo".to_vec()), (0, b"hel".to_vec())]);
        }
    }
}

#[test]
fn packets_without_crypto_data_count_for_nothing() {
    let packet = client_initial(&header(QUIC_V1, 1), 2, &[0u8; 40]);
    assert!(decrypt_initial(&packet).unwrap().is_none());
}

#[test]
fn other_packets_are_not_initial() {
    // A short header.
    assert!(decrypt_initial(&[0x40, 1, 2, 3, 4, 5, 6, 7]).unwrap().is_none());
    // An unknown version.
    assert!(decrypt_initial(&[0xc0, 0xaa, 0, 0, 1, 0, 0, 0]).unwrap().is_none());
    // A Handshake packet, and what would be an Initial packet in the other version.
    assert!(decrypt_initial(&[0xe0, 0, 0, 0, 1, 0, 0, 0]).unwrap().is_none());
    assert!(decrypt_initial(&[0xd0, 0, 0, 0, 1, 0, 0, 0]).unwrap().is_none());
    assert!(decrypt_initial(&[0xc0, 0x6b, 0x33, 0x43, 0xcf, 0, 0, 0]).unwrap().is_none());
}

#[test]
fn each_packet_error_comes_up() {
    let err = |packet: &[u8]| decrypt_initial(packet).err().unwrap();
    let v1 = [0xc0, 0, 0, 0, 1];
    let with = |rest: &[u8]| {
        let mut p = v1.to_vec();
        p.extend_from_slice(rest);
        p
    };
    assert_eq!(err(&[0xc0, 0, 0, 0, 1]), PacketError::TooShort);
    assert_eq!(err(&with(&[4, 1, 2, 3])), PacketError::TooShortForDcid);
    assert_eq!(err(&with(&[0, 2, 1])), PacketError::TooShortForScid);
    assert_eq!(err(&with(&[0, 0])), PacketError::VarintBeyondData);
    assert_eq!(err(&with(&[0, 0, 0x40])), PacketError::VarintTruncated);
    assert_eq!(err(&with(&[0, 0, 5, 1])), PacketError::TooShortForToken);
    assert_eq!(err(&with(&[0, 0, 1, 1])), PacketError::TruncatedBeforePayloadLength);
    assert_eq!(err(&with(&[0, 0, 0, 9, 1])), PacketError::PayloadTooLong);
    assert_eq!(err(&with(&[0, 0, 0, 2, 1, 1])), PacketError::TooShortForSample);
    let mut packet = client_initial(&header(QUIC_V1, 1), 2, &crypto_frame(0, &[1; 40]));
    let last = packet.len() - 1;
    packet[last] ^= 1;
    assert_eq!(err(&packet), PacketError::AeadOpenFailed);
    let mut frame = crypto_frame(0, &[1; 40]);
    frame.truncate(30);
    let packet = client_initial(&header(QUIC_V1, 1), 2, &frame);
    assert_eq!(err(&packet), PacketError::CryptoFrameTooLong);
}

#[test]
fn packet_number_longer_than_the_payload() {
    let h = header(QUIC_V1, 1);
    let packet = client_initial(&h, 2, &crypto_frame(0, &[1; 40]));
    let (key, iv, hp_key) = derive_client_initial_keys(&h.dcid, &h.salt).unwrap();
    let mut layout = parse_initial_layout(&packet).unwrap().unwrap();
    let at = layout.header_len + 4;
    let mask = compute_hp_mask(&hp_key, &packet[at..at + 16]).unwrap();
    layout.payload_len = 1;
    assert_eq!(
        open_initial(&packet, layout, &key, &iv, &mask).err(),
        Some(PacketError::PacketNumberTooLong)
    );
}

#[test]
fn errors_have_texts() {
    for (e, text) in [
        (PacketError::VarintBeyondData, "varint: offset beyond data"),
        (PacketError::VarintTruncated, "varint: not enough data"),
        (PacketError::KeyDerivationFailed, "HKDF expand failed"),
        (PacketError::CryptoFrameTooLong, "CRYPTO frame data extends beyond plaintext"),
        (PacketError::TooShort, "packet too short"),
        (PacketError::TooShortForDcid, "packet too short for DCID"),
        (PacketError::TooShortForScid, "packet too short for SCID"),
        (PacketError::TooShortForToken, "packet too short for token"),
        (PacketError::TruncatedBeforePayloadLength, "packet truncated before payload length"),
        (PacketError::PayloadTooLong, "payload length exceeds packet size"),
        (PacketError::TooShortForSample, "packet too short for header protection sample"),
        (PacketError::PacketNumberTooLong, "packet number extends beyond payload"),
        (PacketError::AeadOpenFailed, "AEAD decryption failed"),
        (PacketError::AeadSealFailed, "AEAD seal failed"),
    ] {
        assert_eq!(e.message(), text);
    }
}

#[test]
fn crypto_data_behind_an_ack_is_found() {
    let mut plain_ack = vec![0x02, 0x05, 0x40, 0x64, 0x00, 0x05];
    let ranges_ack = vec![0x02, 0x09, 0x00, 0x02, 0x01, 0x00, 0x01, 0x02, 0x41, 0x00];
    let counts_ack = vec![0x03, 0x05, 0x00, 0x01, 0x00, 0x00, 0x00, 0x01, 0x02, 0x03];
    for ack in [&plain_ack, &ranges_ack, &counts_ack] {
        let mut frames = ack.clone();
        frames.extend(crypto_frame(9, &[4; 30]));
        frames.extend(ack);
        frames.extend(crypto_frame(0, &[5; 9]));
        for version in [QUIC_V1, QUIC_V2] {
            let packet = client_initial(&header(version, 1), 2, &frames);
            let d = decrypt_initial(&packet).unwrap().unwrap();
            let segments: Vec<_> = d.crypto_segments.iter().map(pair).collect();
            assert_eq!(segments, vec![(9, vec![4; 30]), (0, vec![5; 9])]);
        }
    }
    // An ACK frame that is cut short ends the list.
    plain_ack.pop();
    for ack in [plain_ack, vec![0x03], vec![0x02, 0, 0, 0xff], vec![0x02, 0, 0, 0x3f, 0, 1, 2]] {
        let mut frames = crypto_frame(1, &[6]);
        frames.extend(ack);
        let segments = parse_crypto_frames(&frames).unwrap();
        assert_eq!(segments.iter().map(pair).collect::<Vec<_>>(), vec![(1, vec![6])]);
    }
    // So does any frame that is not known.
    let mut frames = vec![0x1c];
    frames.extend(crypto_frame(1, &[6]));
    assert!(parse_crypto_frames(&frames).unwrap().is_empty());
}

#[test]
fn crypto_frames_are_found_between_others() {
    let mut plaintext = vec![0x00, 0x01];
    plaintext.extend(crypto_frame(70, &[1, 2, 3]));
    plaintext.push(0x00);
    let segments = parse_crypto_frames(&plaintext).unwrap();
    assert_eq!(segments.iter().map(pair).collect::<Vec<_>>(), vec![(70, vec![1, 2, 3])]);
    assert!(parse_crypto_frames(&[]).unwrap().is_empty());
}

#[test]
fn sealed_packet_decrypts_to_its_contents() {
    for version in [QUIC_V1, QUIC_V2] {
        for len in [1usize, 300, 1200, 3000] {
            let h = header(version, 0x0102);
            let data: Vec<u8> = (0..len).map(|i| i as u8).collect();
            let packet = encrypt_initial(&h, &data).unwrap();
            if len < 1000 {
                assert_eq!(packet.len(), MIN_INITIAL_SIZE);
            } else {
                assert!(packet.len() > MIN_INITIAL_SIZE);
            }
            let layout = parse_initial_layout(&packet).unwrap().unwrap();
            assert_eq!(layout.header_len + layout.payload_len, packet.len());
            let d = decrypt_initial(&packet).unwrap().unwrap();
            assert_eq!(d.header.version, version);
            assert_eq!(d.header.salt, h.salt);
            assert_eq!(d.header.packet_number, 0x0102);
            assert_eq!(d.header.dcid, h.dcid);
            assert_eq!(d.header.scid, h.scid);
            assert_eq!(d.header.token, h.token);
            assert_eq!(d.crypto_segments.iter().map(pair).collect::<Vec<_>>(), vec![(0, data)]);
        }
    }
}

#[test]
fn sealed_packets_are_padded_to_the_minimum() {
    let sealed_len = |token: usize, data: usize| {
        let mut h = header(QUIC_V1, 0);
        h.token = vec![7; token];
        encrypt_initial(&h, &vec![1; data]).unwrap().len()
    };
    // Connection IDs of 8 and 3 bytes.
    for (token, data) in [(0, 0), (0, 1), (0, 1149), (1000, 0), (1000, 149), (500, 649)] {
        assert_eq!(sealed_len(token, data), 1200);
    }
    // The first packets that need no padding, and what comes after them.
    assert_eq!(sealed_len(0, 1157), 1200);
    assert_eq!(sealed_len(0, 1158), 1201);
    assert_eq!(sealed_len(1000, 200), 1244);
    assert_eq!(sealed_len(1300, 0), 1342);
    // A payload of less than 64 bytes that fills the packet has a length of 2 bytes.
    for token in 1128..=1157 {
        let mut h = header(QUIC_V1, 0);
        h.token = vec![7; token];
        let packet = encrypt_initial(&h, &[]).unwrap();
        assert_eq!(packet.len(), 1200);
        let layout = parse_initial_layout(&packet).unwrap().unwrap();
        assert_eq!(layout.header_len + layout.payload_len, 1200);
        if layout.payload_len < 64 {
            let at = layout.header_len - 2;
            assert_eq!(packet[at..at + 2], [0x40, layout.payload_len as u8]);
        }
        assert_eq!(decrypt_initial(&packet).unwrap().unwrap().header.token, h.token);
    }
    assert_eq!(sealed_len(1158, 0), 1200);
    assert_eq!(sealed_len(1159, 0), 1201);
}

#[test]
fn sealed_header_has_the_fields_of_the_first_packet() {
    let h = header(QUIC_V2, 7);
    let packet = encrypt_initial(&h, b"inner").unwrap();
    assert_eq!(packet[0] & 0xf0, 0xd0);
    assert_eq!(packet[1..5], QUIC_V2.to_be_bytes());
    assert_eq!(parse_long_header_dcid(&packet).unwrap(), h.dcid);
    let packet = encrypt_initial(&header(QUIC_V1, 7), b"inner").unwrap();
    assert_eq!(packet[0] & 0xf0, 0xc0);
}

#[test]
fn segments_come_in_any_order() {
    let segment = |offset: usize, data: &[u8]| CryptoSegment { offset, data: data.to_vec() };
    let mut a = CryptoAssembler::new();
    assert_eq!(a.contiguous_len(), 0);
    a.add_segments(&[segment(4, b"o wo")]);
    assert_eq!(a.contiguous_len(), 0);
    assert!(a.contiguous_data().is_empty());
    a.add_segments(&[segment(7, b"orld"), segment(0, b"hello")]);
    assert_eq!(a.contiguous_data(), b"hello world");
    assert_eq!(a.contiguous_len(), 11);
    a.add_segments(&[segment(0, b"hello")]);
    assert_eq!(a.contiguous_data(), b"hello world");
}

#[test]
fn segments_beyond_the_maximum_are_dropped() {
    let mut a = CryptoAssembler::new();
    a.add_segments(&[CryptoSegment { offset: 8190, data: vec![1, 2, 3] }]);
    a.add_segments(&[CryptoSegment { offset: usize::MAX, data: vec![1, 2, 3] }]);
    assert_eq!(a.contiguous_len(), 0);
    a.add_segments(&[CryptoSegment { offset: 0, data: vec![9; 8192] }]);
    assert_eq!(a.contiguous_len(), 8192);
    let copy = CryptoSegment { offset: 3, data: vec![4] }.clone();
    assert_eq!((copy.offset, copy.data), (3, vec![4]));
}

#[test]
fn long_headers_and_their_ids() {
    assert!(is_long_header(&[0x80]));
    assert!(!is_long_header(&[0x7f]));
    assert!(!is_long_header(&[]));
    assert_eq!(parse_long_header_dcid(&[0xc0, 0, 0, 0, 1, 2, 0xaa, 0xbb]), Some(vec![0xaa, 0xbb]));
    assert_eq!(parse_long_header_dcid(&[0xc0, 0, 0, 0, 1, 3, 0xaa, 0xbb]), None);
    assert_eq!(parse_long_header_dcid(&[0x40, 0, 0, 0, 1, 0]), None);
    assert_eq!(parse_long_header_dcid(&[0xc0, 0, 0, 0, 1]), None);
}
