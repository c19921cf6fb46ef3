//! The packets of one client, with real HPKE from end to end.

use std::sync::Arc;

use hpke::aead::{AeadCtxR, AeadCtxS, AesGcm128};
use hpke::kdf::HkdfSha256;
use hpke::kem::X25519HkdfSha256;
use hpke::rand_core::{CryptoRng, Error as RngError, RngCore};
use hpke::{Deserializable, Kem, OpModeR, OpModeS, Serializable};
use quic_ech_proxy::ech_config::{EchConfigPayload, PublicName};
use quic_ech_proxy::ech_key::{generate_ech_config, EchServerKey};
use quic_ech_proxy::error::{Error, PacketError, PeerMisbehaved};
use quic_ech_proxy::hello::{
    ClientExtensions, ClientHelloPayload, EncryptedClientHello, EncryptedClientHelloOuter, Random,
    SessionId, SupportedProtocolVersions,
};
use quic_ech_proxy::hpke::{
    EncapsulatedSecret, Hpke, HpkeKem, HpkeOpener, HpkePrivateKey, HpkePublicKey, HpkeSuite,
    HpkeSymmetricCipherSuite, DHKEM_X25519_HKDF_SHA256,
};
use quic_ech_proxy::initial_keys::{compute_hp_mask, derive_client_initial_keys};
use quic_ech_proxy::inner_hello::encode_inner_hello;
use quic_ech_proxy::quic_packet::{decrypt_initial, InitialHeader, QUIC_V1, QUIC_V1_SALT};
use quic_ech_proxy::session::{is_idle, ClientSession, PacketAction, ProxyError};
use quic_ech_proxy::varint::write_varint;
use ring::aead::{Aad, LessSafeKey, Nonce, UnboundKey, AES_128_GCM};

type Sealer = AeadCtxS<AesGcm128, HkdfSha256, X25519HkdfSha256>;

/// X25519, HKDF-SHA256 and AES-128-GCM, with a fixed key pair.
#[derive(Clone, Copy)]
struct X25519Aes128;

struct Opener(AeadCtxR<AesGcm128, HkdfSha256, X25519HkdfSha256>);

fn failed<E>(_: E) -> Error {
    Error::General("HPKE failure".into())
}

impl HpkeOpener for Opener {
    fn open(&mut self, aad: &[u8], ciphertext: &[u8]) -> Result<Vec<u8>, Error> {
        self.0.open(ciphertext, aad).map_err(failed)
    }
}

impl Hpke for X25519Aes128 {
    type Opener = Opener;

    fn suite(&self) -> HpkeSuite {
        HpkeSuite {
            kem: HpkeKem(DHKEM_X25519_HKDF_SHA256),
            sym: HpkeSymmetricCipherSuite::default(),
        }
    }

    fn setup_opener(
        &self,
        enc: &EncapsulatedSecret,
        info: &[u8],
        private_key: &HpkePrivateKey,
    ) -> Result<Opener, Error> {
        type Private = <X25519HkdfSha256 as Kem>::PrivateKey;
        type Encapped = <X25519HkdfSha256 as Kem>::EncappedKey;
        let private_key = Private::from_bytes(private_key.secret_bytes()).map_err(failed)?;
        let enc = Encapped::from_bytes(&enc.0).map_err(failed)?;
        hpke::setup_receiver(&OpModeR::Base, &private_key, &enc, info).map(Opener).map_err(failed)
    }

    fn generate_key_pair(&self) -> Result<(HpkePublicKey, HpkePrivateKey), Error> {
        let (private, public) = X25519HkdfSha256::derive_keypair(&[7; 32]);
        Ok((
            HpkePublicKey(public.to_bytes().to_vec()),
            HpkePrivateKey::from(private.to_bytes().to_vec()),
        ))
    }
}

/// Bytes that count up.
struct Counting(u8);

impl RngCore for Counting {
    fn next_u32(&mut self) -> u32 {
        self.next_u64() as u32
    }

    fn next_u64(&mut self) -> u64 {
        let mut b = [0; 8];
        self.fill_bytes(&mut b);
        u64::from_le_bytes(b)
    }

    fn fill_bytes(&mut self, dest: &mut [u8]) {
        for b in dest {
            self.0 = self.0.wrapping_add(1);
            *b = self.0;
        }
    }

    fn try_fill_bytes(&mut self, dest: &mut [u8]) -> Result<(), RngError> {
        self.fill_bytes(dest);
        Ok(())
    }
}

impl CryptoRng for Counting {}

fn new_key() -> EchServerKey<X25519Aes128> {
    let name = PublicName::from_slice(b"public.example.com").unwrap();
    generate_ech_config(X25519Aes128, 42, name, 0).ok().unwrap().0
}

fn new_session() -> ClientSession<X25519Aes128> {
    ClientSession::new(Arc::from(vec![new_key()]))
}

/// A client's HPKE context for the published config, and the encapsulated secret.
fn client_context(key: &EchServerKey<X25519Aes128>) -> (Sealer, Vec<u8>) {
    let EchConfigPayload::V18(contents) = &key.config else { panic!("version") };
    type Public = <X25519HkdfSha256 as Kem>::PublicKey;
    let public = Public::from_bytes(&contents.key_config.public_key).unwrap();
    let (enc, sealer) =
        hpke::setup_sender(&OpModeS::Base, &public, &key.hpke_info(), &mut Counting(9)).unwrap();
    (sealer, enc.to_bytes().to_vec())
}

fn hello(random: u8, ech: Option<EncryptedClientHello>, session_id: &[u8]) -> ClientHelloPayload {
    ClientHelloPayload {
        client_version: 0x0303,
        random: Random([random; 32]),
        session_id: SessionId::from_slice(session_id).unwrap(),
        cipher_suites: vec![0x1301, 0x1302],
        compression_methods: vec![0],
        extensions: ClientExtensions {
            supported_versions: Some(SupportedProtocolVersions { tls13: true, tls12: false }),
            encrypted_client_hello: ech,
        },
    }
}

fn outer_hello(config_id: u8, enc: &[u8], payload: Vec<u8>) -> ClientHelloPayload {
    let ext = EncryptedClientHelloOuter {
        cipher_suite: HpkeSymmetricCipherSuite::default(),
        config_id,
        enc: enc.to_vec(),
        payload,
    };
    hello(0x11, Some(EncryptedClientHello::Outer(ext)), &[5; 32])
}

fn sealed_hello(sealer: &mut Sealer, config_id: u8, enc: &[u8], random: u8) -> Vec<u8> {
    let mut inner = hello(random, Some(EncryptedClientHello::Inner), &[]).get_encoding();
    inner.extend([0u8; 40]);
    let blank = outer_hello(config_id, enc, vec![0; inner.len() + 16]).get_encoding();
    let payload = sealer.seal(&inner, &blank).unwrap();
    encode_inner_hello(&outer_hello(config_id, enc, payload).get_encoding())
}

fn expected_inner(random: u8) -> Vec<u8> {
    encode_inner_hello(&hello(random, Some(EncryptedClientHello::Inner), &[5; 32]).get_encoding())
}

fn first_header() -> InitialHeader {
    InitialHeader {
        version: QUIC_V1,
        dcid: vec![1, 2, 3, 4, 5, 6, 7, 8],
        scid: vec![9],
        token: vec![],
        packet_number: 3,
        salt: QUIC_V1_SALT,
    }
}

/// A client's Initial packet with the given stretches of the handshake stream.
fn client_initial(segments: &[(usize, &[u8])]) -> Vec<u8> {
    let h = first_header();
    let mut frames = Vec::new();
    for (offset, data) in segments {
        frames.push(0x06);
        write_varint(&mut frames, *offset as u64);
        write_varint(&mut frames, data.len() as u64);
        frames.extend_from_slice(data);
    }
    frames.extend([0u8; 20]);
    let (key, iv, hp_key) = derive_client_initial_keys(&h.dcid, &h.salt).unwrap();
    let mut packet = vec![0xc3];
    packet.extend(h.version.to_be_bytes());
    packet.push(h.dcid.len() as u8);
    packet.extend(&h.dcid);
    packet.push(h.scid.len() as u8);
    packet.extend(&h.scid);
    packet.push(0);
    write_varint(&mut packet, (4 + frames.len() + 16) as u64);
    let header_len = packet.len();
    packet.extend(h.packet_number.to_be_bytes());
    let mut nonce = iv;
    for (i, b) in (h.packet_number as u64).to_be_bytes().iter().enumerate() {
        nonce[4 + i] ^= b;
    }
    LessSafeKey::new(UnboundKey::new(&AES_128_GCM, &key).unwrap())
        .seal_in_place_append_tag(
            Nonce::assume_unique_for_key(nonce),
            Aad::from(packet.clone()),
            &mut frames,
        )
        .unwrap();
    packet.extend(frames);
    let mask = compute_hp_mask(&hp_key, &packet[header_len + 4..header_len + 20]).unwrap();
    packet[0] ^= mask[0] & 0x0f;
    for i in 0..4 {
        packet[header_len + i] ^= mask[1 + i];
    }
    packet
}

/// What a rewritten packet carries.
fn carried(packet: &[u8]) -> Vec<u8> {
    let h = first_header();
    let mut d = decrypt_initial(packet).unwrap().unwrap();
    assert_eq!(d.header.dcid, h.dcid);
    assert_eq!(d.header.scid, h.scid);
    assert_eq!(d.header.packet_number, h.packet_number);
    assert_eq!(d.crypto_segments.len(), 1);
    assert_eq!(d.crypto_segments[0].offset, 0);
    d.crypto_segments.remove(0).data
}

#[test]
fn hello_in_one_packet_is_rewritten() {
    let (mut sealer, enc) = client_context(&new_key());
    let message = sealed_hello(&mut sealer, 42, &enc, 0x77);
    let mut session = new_session();
    let packet = client_initial(&[(0, &message)]);
    let action = session.handle_client_packet(&packet).unwrap();
    let PacketAction::Rewritten(rewritten) = &action else { panic!("not rewritten") };
    assert_eq!(rewritten.len(), 1200);
    assert_eq!(carried(rewritten), expected_inner(0x77));
    assert_eq!(action.bytes_to_send(&packet), &rewritten[..]);
}

#[test]
fn hello_in_several_packets_is_collected() {
    let (mut sealer, enc) = client_context(&new_key());
    let message = sealed_hello(&mut sealer, 42, &enc, 0x78);
    let mut session = new_session();
    let third = client_initial(&[(50, &message[50..])]);
    let action = session.handle_client_packet(&third).unwrap();
    assert!(matches!(action, PacketAction::PartialHello));
    assert_eq!(action.bytes_to_send(&third), &third[..]);
    let first = client_initial(&[(0, &message[..2])]);
    assert!(matches!(session.handle_client_packet(&first), Ok(PacketAction::PartialHello)));
    let second = client_initial(&[(30, &message[30..60]), (1, &message[1..31])]);
    let action = session.handle_client_packet(&second).unwrap();
    let PacketAction::Rewritten(rewritten) = &action else { panic!("not rewritten") };
    assert_eq!(carried(rewritten), expected_inner(0x78));
}

#[test]
fn hello_without_a_matching_offer_passes() {
    let plain = encode_inner_hello(&hello(1, None, &[]).get_encoding());
    let (mut sealer, enc) = client_context(&new_key());
    let other_config = sealed_hello(&mut sealer, 43, &enc, 0x77);
    for message in [plain, other_config] {
        let mut session = new_session();
        let packet = client_initial(&[(0, &message)]);
        let action = session.handle_client_packet(&packet).unwrap();
        assert!(matches!(action, PacketAction::NoEch));
        assert_eq!(action.bytes_to_send(&packet), &packet[..]);
        // From now on nothing is looked into.
        let action = session.handle_client_packet(&packet).unwrap();
        assert!(matches!(action, PacketAction::Passthrough));
        assert_eq!(action.bytes_to_send(&packet), &packet[..]);
    }
}

#[test]
fn other_packets_pass() {
    let mut session = new_session();
    let short = [0x40, 1, 2, 3, 4, 5, 6, 7];
    let action = session.handle_client_packet(&short).unwrap();
    assert!(matches!(action, PacketAction::NotInitial));
    assert_eq!(action.bytes_to_send(&short), short);
    let action = session.handle_client_packet(&[0xc0]).unwrap();
    assert!(matches!(action, PacketAction::Unreadable(PacketError::TooShort)));
    // Handshake data that is no ClientHello.
    let packet = client_initial(&[(0, &[2, 0, 0, 0, 0])]);
    assert!(matches!(session.handle_client_packet(&packet), Ok(PacketAction::NoEch)));
}

#[test]
fn malformed_hellos_are_reported() {
    let mut session = new_session();
    let packet = client_initial(&[(0, &[1, 0, 0, 2, 3, 3])]);
    match session.handle_client_packet(&packet) {
        Err(ProxyError::Ech(Error::PeerMisbehaved(e))) => {
            assert_eq!(e, PeerMisbehaved::InvalidEchClientHelloInner);
        }
        _ => panic!("not refused"),
    }
}

#[test]
fn inner_hello_too_long_for_its_length_is_still_sealed() {
    // The proxy's own packet grows with the ClientHello.
    let (mut sealer, enc) = client_context(&new_key());
    let mut inner = hello(9, Some(EncryptedClientHello::Inner), &[]);
    inner.cipher_suites = vec![0x1301; 1500];
    let inner_bytes = inner.get_encoding();
    let blank = outer_hello(42, &enc, vec![0; inner_bytes.len() + 16]).get_encoding();
    let payload = sealer.seal(&inner_bytes, &blank).unwrap();
    let message = encode_inner_hello(&outer_hello(42, &enc, payload).get_encoding());
    let mut session = new_session();
    let packet = client_initial(&[(0, &message)]);
    let action = session.handle_client_packet(&packet).unwrap();
    let PacketAction::Rewritten(rewritten) = &action else { panic!("not rewritten") };
    assert!(rewritten.len() > 3000);
    inner.session_id = SessionId::from_slice(&[5; 32]).unwrap();
    assert_eq!(carried(rewritten), encode_inner_hello(&inner.get_encoding()));
}

#[test]
fn idle_clients() {
    assert!(!is_idle(0, 0));
    assert!(is_idle(1, 0));
    assert!(!is_idle(30_000_000_000, 30));
    assert!(is_idle(30_000_000_001, 30));
    assert!(!is_idle(u64::MAX as u128, u64::MAX));
}
