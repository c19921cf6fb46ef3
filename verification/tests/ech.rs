//! ECH: configs and keys, the inner ClientHello, and the proxies.

use std::sync::Arc;

use quic_ech_proxy::ech::{
    decrypt_ech, decrypt_ech_hrr, make_inner_input, resolve_ech, EchDecryptResult, EchOffer,
    EchServerState, EchStatus,
};
use quic_ech_proxy::ech_config::{
    put_config_list, EchConfigContents, EchConfigExtension, EchConfigPayload, HpkeKeyConfig,
    PublicName,
};
use quic_ech_proxy::ech_key::{
    collect_retry_configs, ech_config_of_key_pair, generate_ech_config, EchServerKey,
};
use quic_ech_proxy::ech_proxy;
use quic_ech_proxy::error::{Error, PeerMisbehaved};
use quic_ech_proxy::frontend::{
    is_client_hello_record, parse_client_hello, parse_tls_record, wrap_handshake_in_record,
    EchProxy, EchProxyResult,
};
use quic_ech_proxy::hello::{
    ClientExtensions, ClientHelloPayload, EncryptedClientHello, EncryptedClientHelloOuter, Random,
    SessionId, SupportedProtocolVersions,
};
use quic_ech_proxy::hpke::{
    EncapsulatedSecret, Hpke, HpkeKem, HpkeOpener, HpkePrivateKey, HpkePublicKey, HpkeSuite,
    HpkeSymmetricCipherSuite, NoOpOpener, DHKEM_X25519_HKDF_SHA256,
};
use quic_ech_proxy::inner_hello::{
    decode_client_hello_inner, encode_inner_hello, expand_extensions_raw,
    extract_extensions_from_client_hello, reconstruct_inner_bytes, u24_read,
};
use quic_ech_proxy::key_schedule::{server_ech_confirmation, Hkdf, HkdfSha256};
use quic_ech_proxy::message::{HandshakePayload, Input, Message, MessagePayload};
use quic_ech_proxy::outer_aad::{compute_client_hello_outer_aad, zero_ech_payload_in_extensions};
use quic_ech_proxy::wire::Reader;

/// A suite that only adds bytes up: enough to tell keys, parameters and order
/// of messages apart.
#[derive(Clone, Copy)]
struct Adding {
    suite: HpkeSuite,
}

struct AddingOpener {
    key: u8,
    count: u8,
}

fn total(parts: &[&[u8]]) -> u8 {
    let sum = parts
        .iter()
        .flat_map(|p| p.iter())
        .fold(0x811c_9dc5u32, |a, b| (a ^ *b as u32).wrapping_mul(0x0100_0193));
    (sum >> 24) as u8
}

impl AddingOpener {
    fn seal(&mut self, aad: &[u8], plaintext: &[u8]) -> Vec<u8> {
        let k = self.key.wrapping_add(self.count);
        self.count += 1;
        let mut out: Vec<u8> = plaintext.iter().map(|b| b.wrapping_add(k)).collect();
        out.push(total(&[&[k], aad, plaintext]));
        out
    }
}

impl HpkeOpener for AddingOpener {
    fn open(&mut self, aad: &[u8], ciphertext: &[u8]) -> Result<Vec<u8>, Error> {
        let k = self.key.wrapping_add(self.count);
        self.count += 1;
        let (tag, body) = ciphertext.split_last().ok_or(Error::General("empty".into()))?;
        let plaintext: Vec<u8> = body.iter().map(|b| b.wrapping_sub(k)).collect();
        if *tag == total(&[&[k], aad, &plaintext]) {
            Ok(plaintext)
        } else {
            Err(Error::General("bad tag".into()))
        }
    }
}

impl Hpke for Adding {
    type Opener = AddingOpener;

    fn suite(&self) -> HpkeSuite {
        self.suite
    }

    fn setup_opener(
        &self,
        enc: &EncapsulatedSecret,
        info: &[u8],
        private_key: &HpkePrivateKey,
    ) -> Result<AddingOpener, Error> {
        if enc.0.is_empty() {
            return Err(Error::General("no secret".into()));
        }
        let sym = self.suite.sym;
        let ids = [self.suite.kem.0 as u8, sym.kdf_id as u8, sym.aead_id as u8];
        Ok(AddingOpener { key: total(&[&ids, &enc.0, info, private_key.secret_bytes()]), count: 0 })
    }

    fn generate_key_pair(&self) -> Result<(HpkePublicKey, HpkePrivateKey), Error> {
        if self.suite.kem.0 == 0 {
            return Err(Error::General("no such KEM".into()));
        }
        Ok((HpkePublicKey(vec![1, 2, 3]), HpkePrivateKey::from(vec![4, 5, 6])))
    }
}

fn suite(aead_id: u16) -> HpkeSuite {
    HpkeSuite {
        kem: HpkeKem(DHKEM_X25519_HKDF_SHA256),
        sym: HpkeSymmetricCipherSuite { kdf_id: 1, aead_id },
    }
}

fn adding() -> Adding {
    Adding { suite: suite(1) }
}

fn make_v18_config(config_id: u8) -> EchConfigPayload {
    EchConfigPayload::V18(EchConfigContents {
        key_config: HpkeKeyConfig {
            config_id,
            kem_id: HpkeKem(DHKEM_X25519_HKDF_SHA256),
            public_key: vec![0u8; 32],
            symmetric_cipher_suites: vec![HpkeSymmetricCipherSuite::default()],
        },
        maximum_name_length: 128,
        public_name: PublicName::from_slice(b"example.com").unwrap(),
        extensions: Vec::new(),
    })
}

fn plain_key(config_id: u8) -> EchServerKey<Adding> {
    EchServerKey {
        config: make_v18_config(config_id),
        private_key: HpkePrivateKey::from(vec![0u8; 32]),
        hpke_suites: vec![],
        is_retry_config: true,
    }
}

fn server_key(config_id: u8, secret: u8) -> EchServerKey<Adding> {
    EchServerKey::new(
        make_v18_config(config_id),
        HpkePrivateKey::from(vec![secret; 32]),
        adding(),
    )
}

fn encoded_config(config: &EchConfigPayload) -> Vec<u8> {
    let mut bytes = Vec::new();
    config.encode(&mut bytes);
    bytes
}

fn make_hello(random: [u8; 32]) -> ClientHelloPayload {
    ClientHelloPayload {
        client_version: 0x0303,
        random: Random(random),
        session_id: SessionId::empty(),
        cipher_suites: vec![0x1301],
        compression_methods: vec![0],
        extensions: ClientExtensions {
            supported_versions: Some(SupportedProtocolVersions { tls13: true, tls12: false }),
            ..Default::default()
        },
    }
}

fn make_inner(random: [u8; 32]) -> ClientHelloPayload {
    let mut inner = make_hello(random);
    inner.extensions.encrypted_client_hello = Some(EncryptedClientHello::Inner);
    inner
}

fn offer(config_id: u8, enc: Vec<u8>, payload: Vec<u8>) -> EncryptedClientHelloOuter {
    EncryptedClientHelloOuter {
        cipher_suite: HpkeSymmetricCipherSuite::default(),
        config_id,
        enc,
        payload,
    }
}

fn with_offer(ext: EncryptedClientHelloOuter) -> ClientHelloPayload {
    let mut outer = make_hello([0x11u8; 32]);
    outer.session_id = SessionId::from_slice(&[0xab; 32]).unwrap();
    outer.extensions.encrypted_client_hello = Some(EncryptedClientHello::Outer(ext));
    outer
}

/// An outer ClientHello message that offers `plaintext`, sealed by `sealer`.
fn sealed_hello(
    sealer: &mut AddingOpener,
    config_id: u8,
    enc: &[u8],
    plaintext: &[u8],
) -> Vec<u8> {
    let blank = with_offer(offer(config_id, enc.to_vec(), vec![0; plaintext.len() + 1]));
    let payload = sealer.seal(&blank.get_encoding(), plaintext);
    let outer = with_offer(offer(config_id, enc.to_vec(), payload));
    encode_inner_hello(&outer.get_encoding())
}

/// The client's side of the opener that `key` sets up for the encapsulated secret `enc`.
fn sealer_for(key: &EchServerKey<Adding>, enc: &[u8]) -> AddingOpener {
    key.hpke_suites[0]
        .setup_opener(&EncapsulatedSecret(enc.to_vec()), &key.hpke_info(), &key.private_key)
        .ok()
        .unwrap()
}

fn restored_inner(random: [u8; 32]) -> Vec<u8> {
    let mut inner = make_inner(random);
    inner.session_id = SessionId::from_slice(&[0xab; 32]).unwrap();
    inner.get_encoding()
}

fn misbehaved<T>(r: Result<T, Error>) -> PeerMisbehaved {
    match r.err().unwrap() {
        Error::PeerMisbehaved(e) => e,
        e => panic!("{e:?}"),
    }
}

fn general<T>(r: Result<T, Error>) -> String {
    match r.err().unwrap() {
        Error::General(message) => message,
        e => panic!("{e:?}"),
    }
}

fn input_of(hello: ClientHelloPayload, encoded: Vec<u8>) -> Input {
    Input {
        message: Message {
            version: 0x0303,
            payload: MessagePayload::Handshake {
                parsed: HandshakePayload::ClientHello(hello),
                encoded,
            },
        },
        aligned_handshake: None,
    }
}

fn parsed_input(message: &[u8]) -> Input {
    input_of(parse_client_hello(message).unwrap(), message.to_vec())
}

// --- Keys and configs ---

#[test]
fn hpke_info_starts_with_prefix() {
    let key = plain_key(1);

    let info = key.hpke_info();
    assert!(info.starts_with(b"tls ech\0"));
    assert_eq!(info[8..], encoded_config(&key.config)[..]);
}

#[test]
fn config_id_returns_id_for_v18() {
    let key = plain_key(42);
    assert_eq!(key.config_id(), Some(42));
}

#[test]
fn config_id_of_an_unknown_version() {
    let key = EchServerKey {
        config: EchConfigPayload::Unknown { version: 0xfe0a, contents: vec![1, 2] },
        ..plain_key(1)
    };
    assert_eq!(key.config_id(), None);
    assert_eq!(key.hpke_info(), b"tls ech\0\xfe\x0a\x00\x02\x01\x02");
}

#[test]
fn with_retry_toggles_flag() {
    let key = plain_key(1);
    assert!(key.is_retry_config);
    let key = key.with_retry(false);
    assert!(!key.is_retry_config);
}

#[test]
fn from_raw_rejects_invalid_bytes() {
    let result = EchServerKey::<Adding>::from_raw(&[0xFF, 0x01], vec![0u8; 32], &[]);
    assert!(result.is_err());
    assert_eq!(general(result), "invalid ECH config");
}

#[test]
fn from_raw_rejects_no_matching_suite() {
    // Encode a valid V18 config, then call from_raw with an empty suite list
    let config = make_v18_config(1);
    let mut config_bytes = Vec::new();
    config.encode(&mut config_bytes);

    let result = EchServerKey::<Adding>::from_raw(&config_bytes, vec![0u8; 32], &[]);
    assert!(matches!(result, Err(Error::General(msg)) if msg.contains("no matching HPKE suite")));
}

#[test]
fn from_raw_rejects_other_versions() {
    let bytes = [0xfe, 0x0a, 0x00, 0x01, 0x00];
    let result = EchServerKey::<Adding>::from_raw(&bytes, vec![], &[adding()]);
    assert_eq!(general(result), "unsupported ECH config version");
}

#[test]
fn from_raw_keeps_all_matching_suites() {
    let other_kem = Adding { suite: HpkeSuite { kem: HpkeKem(0x0010), sym: suite(1).sym } };
    let suites = [adding(), Adding { suite: suite(2) }, other_kem, adding()];
    let mut bytes = encoded_config(&make_v18_config(9));
    bytes.extend([0xff, 0xff]);
    let key = EchServerKey::from_raw(&bytes, vec![7, 8], &suites).ok().unwrap();
    assert_eq!(key.hpke_suites.len(), 2);
    assert!(key.hpke_suites.iter().all(|s| s.suite() == suite(1)));
    assert_eq!(key.private_key_bytes(), [7, 8]);
    assert_eq!(key.config_id(), Some(9));
    assert!(key.is_retry_config);
}

#[test]
fn config_bytes_are_laid_out() {
    let config = EchConfigPayload::V18(EchConfigContents {
        key_config: HpkeKeyConfig {
            config_id: 5,
            kem_id: HpkeKem(0x20),
            public_key: vec![0xaa, 0xbb],
            symmetric_cipher_suites: vec![suite(1).sym, suite(3).sym],
        },
        maximum_name_length: 64,
        public_name: PublicName::from_slice(b"a.b").unwrap(),
        extensions: vec![EchConfigExtension { typ: 0x1234, data: vec![9] }],
    });
    let expected: Vec<u8> = [
        &[0xfe, 0x0d, 0x00, 0x1d][..],
        &[5, 0x00, 0x20, 0x00, 0x02, 0xaa, 0xbb],
        &[0x00, 0x08, 0, 1, 0, 1, 0, 1, 0, 3],
        &[64, 3, b'a', b'.', b'b'],
        &[0x00, 0x05, 0x12, 0x34, 0x00, 0x01, 9],
    ]
    .concat();
    assert_eq!(encoded_config(&config), expected);
    assert_eq!(encoded_config(&config.clone()), expected);

    let mut reader = Reader::new(&expected);
    let read = EchConfigPayload::read(&mut reader).unwrap();
    assert!(!reader.any_left());
    assert_eq!(encoded_config(&read), expected);
    let EchConfigPayload::V18(contents) = read else { panic!("version") };
    assert_eq!(contents.key_config.config_id, 5);
    assert_eq!(contents.key_config.public_key, [0xaa, 0xbb]);
    assert_eq!(contents.key_config.symmetric_cipher_suites, [suite(1).sym, suite(3).sym]);
    assert_eq!(contents.maximum_name_length, 64);
    assert_eq!(contents.public_name.as_slice(), b"a.b");
    assert_eq!(contents.extensions[0].typ, 0x1234);
    assert_eq!(contents.extensions[0].data, [9]);

    let mut list = Vec::new();
    put_config_list(&mut list, &[config.clone(), config]);
    assert_eq!(list[..2], [0x00, 2 * 33]);
    assert_eq!(list[2..], [&expected[..], &expected[..]].concat()[..]);
}

#[test]
fn malformed_configs_are_not_read() {
    let good = encoded_config(&make_v18_config(1));
    let read = |bytes: &[u8]| EchConfigPayload::read(&mut Reader::new(bytes)).is_some();
    assert!(read(&good));
    for n in 0..good.len() {
        assert!(!read(&good[..n]));
    }
    // An invalid name: the dot of example.com becomes a space.
    let mut bad = good.clone();
    let at = bad.iter().position(|b| *b == b'.').unwrap();
    bad[at] = b' ';
    assert!(!read(&bad));
}

#[test]
fn public_names_are_dns_names() {
    for name in ["example.com", "a", "x-1.example", "under_score.example."] {
        assert_eq!(PublicName::from_slice(name.as_bytes()).unwrap().as_slice(), name.as_bytes());
    }
    for name in ["", ".", "a..b", "-a", "a-.b", "a b", "1.2.3.4", &"a".repeat(64)] {
        assert!(PublicName::from_slice(name.as_bytes()).is_none(), "{name}");
    }
}

#[test]
fn generated_key_loads_again() {
    let name = PublicName::from_slice(b"public.example.com").unwrap();
    let (key, list) = generate_ech_config(adding(), 42, name, 0).ok().unwrap();
    assert_eq!(key.config_id(), Some(42));
    assert_eq!(key.private_key_bytes(), [4, 5, 6]);
    let config = encoded_config(&key.config);
    assert_eq!(list[..2], [0x00, config.len() as u8]);
    assert_eq!(list[2..], config[..]);
    let again =
        EchServerKey::from_raw(&list[2..], key.private_key_bytes().to_vec(), &[adding()]).ok();
    assert_eq!(again.unwrap().hpke_info(), key.hpke_info());

    let no_kem = Adding { suite: HpkeSuite { kem: HpkeKem(0), sym: suite(1).sym } };
    let name = PublicName::from_slice(b"public.example.com").unwrap();
    assert_eq!(general(generate_ech_config(no_kem, 42, name, 0)), "no such KEM");
}

#[test]
fn config_of_a_key_pair() {
    let name = PublicName::from_slice(b"p.example").unwrap();
    let (key, _) = ech_config_of_key_pair(
        Adding { suite: suite(2) },
        7,
        name,
        99,
        HpkePublicKey(vec![0xcc; 3]),
        HpkePrivateKey::from(vec![1]),
    );
    let EchConfigPayload::V18(contents) = &key.config else { panic!("version") };
    assert_eq!(contents.key_config.public_key, [0xcc; 3]);
    assert_eq!(contents.key_config.symmetric_cipher_suites, [suite(2).sym]);
    assert_eq!(contents.maximum_name_length, 99);
    assert_eq!(contents.public_name.as_slice(), b"p.example");
    assert!(contents.extensions.is_empty());
    assert!(key.is_retry_config);
    assert_eq!(key.hpke_suites.len(), 1);
}

#[test]
fn only_marked_keys_are_retry_configs() {
    let keys = [plain_key(1), plain_key(2).with_retry(false), plain_key(3)];
    let configs = collect_retry_configs(&keys);
    let ids: Vec<_> = configs
        .iter()
        .map(|c| match c {
            EchConfigPayload::V18(contents) => contents.key_config.config_id,
            EchConfigPayload::Unknown { .. } => unreachable!(),
        })
        .collect();
    assert_eq!(ids, [1, 3]);
}

// --- The inner ClientHello ---

#[test]
fn inner_hello_strips_padding() {
    let mut inner = make_hello([0x42u8; 32]);
    inner.extensions.encrypted_client_hello = Some(EncryptedClientHello::Inner);

    let mut encoded = inner.get_encoding();
    encoded.extend_from_slice(&[0u8; 31]);

    let mut outer = make_hello([0x11u8; 32]);
    let sid_bytes = {
        let mut b = vec![32u8];
        b.extend_from_slice(&[0xAB; 32]);
        b
    };
    outer.session_id = SessionId::read(&mut Reader::new(&sid_bytes)).unwrap();

    let (decoded, _raw) = decode_client_hello_inner(&encoded, &outer, &[]).unwrap();

    assert_eq!(decoded.session_id, outer.session_id);
    assert_eq!(decoded.random.0, [0x42u8; 32]);
    assert!(matches!(
        decoded.extensions.encrypted_client_hello,
        Some(EncryptedClientHello::Inner)
    ));
}

#[test]
fn inner_hello_rejects_truly_empty() {
    let outer = make_hello([0x11u8; 32]);
    assert!(decode_client_hello_inner(&[], &outer, &[]).is_err());
}

#[test]
fn inner_hello_rejects_garbage() {
    let encoded = vec![0u8; 32];
    let outer = make_hello([0x11u8; 32]);
    assert!(decode_client_hello_inner(&encoded, &outer, &[]).is_err());
}

#[test]
fn inner_hello_rejects_missing_marker() {
    let inner = make_hello([0x42u8; 32]);
    let encoded = inner.get_encoding();
    let outer = make_hello([0x11u8; 32]);
    assert!(decode_client_hello_inner(&encoded, &outer, &[]).is_err());
}

#[test]
fn inner_hello_rejects_nonzero_padding() {
    let mut inner = make_hello([0x42u8; 32]);
    inner.extensions.encrypted_client_hello = Some(EncryptedClientHello::Inner);
    let mut encoded = inner.get_encoding();
    // Append non-zero padding
    encoded.extend_from_slice(&[0x01; 4]);

    let outer = make_hello([0x11u8; 32]);
    let err = decode_client_hello_inner(&encoded, &outer, &[]).unwrap_err();
    assert!(matches!(
        err,
        Error::PeerMisbehaved(PeerMisbehaved::InvalidEchPadding)
    ));
}

#[test]
fn inner_hello_must_not_offer_tls12() {
    let outer = make_hello([0x11u8; 32]);
    let decode =
        |inner: &ClientHelloPayload| decode_client_hello_inner(&inner.get_encoding(), &outer, &[]);
    assert!(decode(&make_inner([1; 32])).is_ok());
    for versions in [None, Some(SupportedProtocolVersions { tls13: true, tls12: true })] {
        let mut inner = make_inner([1; 32]);
        inner.extensions.supported_versions = versions;
        assert_eq!(misbehaved(decode(&inner)), PeerMisbehaved::InvalidEchClientHelloInner);
    }
}

#[test]
fn inner_hello_must_come_without_session_id() {
    let outer = make_hello([0x11u8; 32]);
    let mut inner = make_inner([1; 32]);
    inner.session_id = SessionId::from_slice(&[1]).unwrap();
    assert_eq!(
        misbehaved(decode_client_hello_inner(&inner.get_encoding(), &outer, &[])),
        PeerMisbehaved::InvalidEchClientHelloInner
    );
}

#[test]
fn restored_hello_is_the_inner_one() {
    let mut outer = make_hello([0x11u8; 32]);
    outer.session_id = SessionId::from_slice(&[0xab; 32]).unwrap();
    let mut encoded = make_inner([0x42u8; 32]).get_encoding();
    encoded.extend([0u8; 7]);
    let (decoded, raw) = decode_client_hello_inner(&encoded, &outer, &[]).unwrap();
    assert_eq!(raw, restored_inner([0x42u8; 32]));
    assert_eq!(raw, decoded.get_encoding());
    assert_eq!(raw, reconstruct_inner_bytes(&encoded, &outer, &[]).unwrap());
}

#[test]
fn hello_bytes_are_laid_out() {
    let expected: Vec<u8> = [
        &[0x03u8, 0x03][..],
        &[7; 32],
        &[0x00, 0x00, 0x02, 0x13, 0x01, 0x01, 0x00],
        &[0x00, 0x0c, 0x00, 0x2b, 0x00, 0x03, 0x02, 0x03, 0x04, 0xfe, 0x0d, 0x00, 0x01, 0x01],
    ]
    .concat();
    let hello = make_inner([7; 32]);
    assert_eq!(hello.get_encoding(), expected);
    let mut reader = Reader::new(&expected);
    assert_eq!(ClientHelloPayload::read(&mut reader).unwrap(), hello);
    // Without any extensions, their length is missing too.
    let bare = ClientHelloPayload { extensions: ClientExtensions::default(), ..hello };
    assert_eq!(bare.get_encoding(), expected[..41]);
    assert_eq!(ClientHelloPayload::read(&mut Reader::new(&expected[..41])).unwrap(), bare);
}

#[test]
fn malformed_hellos_are_not_read() {
    let good = with_offer(offer(1, vec![1, 2], vec![3])).get_encoding();
    let read = |bytes: &[u8]| ClientHelloPayload::read(&mut Reader::new(bytes)).is_some();
    assert!(read(&good));
    let prefix_len = good.len() - (2 + 7 + 4 + 13);
    for n in 0..good.len() {
        // With the extensions cut off altogether it is a hello again.
        assert_eq!(read(&good[..n]), n == prefix_len, "{n}");
    }
    let mut trailing = good.clone();
    trailing.push(0);
    assert!(!read(&trailing));
    let with_extensions = |list: &[u8]| {
        let mut bytes = good[..prefix_len].to_vec();
        bytes.extend((list.len() as u16).to_be_bytes());
        bytes.extend_from_slice(list);
        bytes
    };
    assert!(read(&with_extensions(&raw_ext(0x0000, &[1]))));
    assert!(read(&with_extensions(&raw_ext(0x0029, &[1]))));
    let twice = [raw_ext(0x0000, &[1]), raw_ext(0x0000, &[1])].concat();
    assert!(!read(&with_extensions(&twice)));
    let after_psk = [raw_ext(0x0029, &[1]), raw_ext(0x0000, &[1])].concat();
    assert!(!read(&with_extensions(&after_psk)));
    assert!(!read(&with_extensions(&raw_ext(0x002b, &[1, 3]))));
    assert!(!read(&with_extensions(&raw_ext(0x002b, &[0]))));
    assert!(!read(&with_extensions(&raw_ext(0xfe0d, &[2]))));
    assert!(!read(&with_extensions(&raw_ext(0xfe0d, &[1, 0]))));
    assert!(!read(&with_extensions(&raw_ext(0xfe0d, &[0, 0, 1, 0, 1, 5, 0, 0, 0, 0]))));
}

/// Build a raw extension: type(2) || length(2) || data
fn raw_ext(ext_type: u16, data: &[u8]) -> Vec<u8> {
    let mut out = Vec::new();
    out.extend_from_slice(&ext_type.to_be_bytes());
    out.extend_from_slice(&(data.len() as u16).to_be_bytes());
    out.extend_from_slice(data);
    out
}

/// Build an ech_outer_extensions extension referencing the given types.
fn outer_ext_ref(types: &[u16]) -> Vec<u8> {
    // list_len(1) || type_id(2) * N
    let list_len = (types.len() * 2) as u8;
    let mut data = vec![list_len];
    for &t in types {
        data.extend_from_slice(&t.to_be_bytes());
    }
    raw_ext(0xfd00, &data)
}

#[test]
fn expand_extensions_copies_outer_extension() {
    // Inner has an ech_outer_extensions reference to type 0x0033 (key_share)
    let inner_exts = outer_ext_ref(&[0x0033]);

    // Outer has key_share with some data
    let outer_exts = raw_ext(0x0033, &[0xAA, 0xBB, 0xCC]);

    let result = expand_extensions_raw(&inner_exts, &outer_exts).unwrap();

    // Result should be the outer key_share extension
    assert_eq!(result, raw_ext(0x0033, &[0xAA, 0xBB, 0xCC]));
}

#[test]
fn expand_extensions_preserves_non_referenced() {
    // Inner has a regular extension followed by an outer reference
    let mut inner_exts = raw_ext(0x0001, &[0x11]);
    inner_exts.extend_from_slice(&outer_ext_ref(&[0x0033]));

    let outer_exts = raw_ext(0x0033, &[0xAA]);

    let result = expand_extensions_raw(&inner_exts, &outer_exts).unwrap();

    let mut expected = raw_ext(0x0001, &[0x11]);
    expected.extend_from_slice(&raw_ext(0x0033, &[0xAA]));
    assert_eq!(result, expected);
}

#[test]
fn expand_extensions_rejects_out_of_order() {
    // Reference types 0x0033 then 0x002b, but outer has 0x002b before 0x0033
    let inner_exts = outer_ext_ref(&[0x0033, 0x002b]);

    let mut outer_exts = raw_ext(0x002b, &[0x01]);
    outer_exts.extend_from_slice(&raw_ext(0x0033, &[0x02]));

    assert!(expand_extensions_raw(&inner_exts, &outer_exts).is_err());
}

#[test]
fn expand_extensions_rejects_ech_reference() {
    // Reference to EncryptedClientHello (0xfe0d) is forbidden
    let inner_exts = outer_ext_ref(&[0xfe0d]);
    let outer_exts = raw_ext(0xfe0d, &[0x01]);

    assert!(expand_extensions_raw(&inner_exts, &outer_exts).is_err());
}

#[test]
fn expand_extensions_rejects_missing_outer() {
    // Reference type 0x0033, but outer doesn't have it
    let inner_exts = outer_ext_ref(&[0x0033]);

    assert!(expand_extensions_raw(&inner_exts, &[]).is_err());
}

#[test]
fn expand_extensions_takes_references_in_outer_order() {
    let outer: Vec<u8> =
        [raw_ext(0x000a, &[1]), raw_ext(0x000d, &[2, 2]), raw_ext(0x0033, &[])].concat();
    let inner = [outer_ext_ref(&[0x000a, 0x0033]), raw_ext(0x0001, &[9])].concat();
    assert_eq!(
        expand_extensions_raw(&inner, &outer).unwrap(),
        [raw_ext(0x000a, &[1]), raw_ext(0x0033, &[]), raw_ext(0x0001, &[9])].concat()
    );
    // Nothing referenced, nothing changed.
    assert_eq!(expand_extensions_raw(&outer, &inner).unwrap(), outer);
    assert_eq!(expand_extensions_raw(&[], &outer).unwrap(), []);
}

#[test]
fn expand_extensions_rejects_malformed_lists() {
    let outer = raw_ext(0x0033, &[1]);
    for inner in [
        raw_ext(0xfd00, &[]),
        raw_ext(0xfd00, &[0]),
        raw_ext(0xfd00, &[1, 0]),
        raw_ext(0xfd00, &[2, 0, 0x33, 0]),
        raw_ext(0xfd00, &[4, 0, 0x33]),
        vec![0x00],
        vec![0x00, 0x01, 0x00, 0x02, 0x00],
    ] {
        assert_eq!(
            misbehaved(expand_extensions_raw(&inner, &outer)),
            PeerMisbehaved::InvalidEchOuterExtension
        );
    }
    assert!(expand_extensions_raw(&outer_ext_ref(&[0x33, 0x33]), &outer).is_err());
}

// --- Additional data ---

#[test]
fn aad_zeros_ech_payload() {
    let ech_outer = EncryptedClientHelloOuter {
        cipher_suite: HpkeSymmetricCipherSuite::default(),
        config_id: 42,
        enc: vec![1, 2, 3],
        payload: vec![0xAA; 32],
    };

    let mut outer_hello = make_hello([0u8; 32]);
    outer_hello.extensions.encrypted_client_hello =
        Some(EncryptedClientHello::Outer(ech_outer.clone()));

    let encoded = encode_inner_hello(&outer_hello.get_encoding());

    let aad = compute_client_hello_outer_aad(&encoded, &ech_outer);

    assert!(!aad.is_empty());
    // The AAD should not contain the original 0xAA payload bytes
    let has_aa_run = aad.windows(32).any(|w| w.iter().all(|&b| b == 0xAA));
    assert!(!has_aa_run, "AAD should have zeroed ECH payload");

    // The AAD should contain zeroed bytes where the payload was
    let has_zero_run = aad.windows(32).any(|w| w.iter().all(|&b| b == 0x00));
    assert!(has_zero_run, "AAD should contain zeroed payload");
}

#[test]
fn aad_is_the_same_for_every_payload() {
    let a = with_offer(offer(1, vec![9; 32], vec![0xaa; 40])).get_encoding();
    let b = with_offer(offer(1, vec![9; 32], vec![0x00; 40])).get_encoding();
    let mut zeroed = a.clone();
    zero_ech_payload_in_extensions(&mut zeroed, 40);
    assert_eq!(zeroed, b);
    zero_ech_payload_in_extensions(&mut zeroed, 40);
    assert_eq!(zeroed, b);
    // A payload that is longer than the extension is not there.
    let mut longer = a.clone();
    zero_ech_payload_in_extensions(&mut longer, 400);
    assert_eq!(longer, a);
    let mut cut = a[..30].to_vec();
    zero_ech_payload_in_extensions(&mut cut, 1);
    assert_eq!(cut, a[..30]);
}

#[test]
fn extensions_are_extracted() {
    let message = encode_inner_hello(&make_inner([7; 32]).get_encoding());
    assert_eq!(message[..4], [1, 0, 0, 55]);
    let list = extract_extensions_from_client_hello(&message).unwrap();
    assert_eq!(list, [raw_ext(0x2b, &[2, 3, 4]), raw_ext(0xfe0d, &[1])].concat());
    for n in 0..message.len() {
        assert_eq!(
            misbehaved(extract_extensions_from_client_hello(&message[..n])),
            PeerMisbehaved::InvalidEchClientHelloInner
        );
    }
    let mut reader = Reader::new(&[1, 2, 3, 4]);
    assert_eq!(u24_read(&mut reader), Some(0x010203));
    assert_eq!(u24_read(&mut reader), None);
}

// --- Decryption ---

#[test]
fn not_offered() {
    let hello = make_hello([0u8; 32]);
    assert!(matches!(
        decrypt_ech::<Adding>(&hello, &[], &[], &[]),
        EchDecryptResult::NotOffered
    ));
}

#[test]
fn inner_direct() {
    let mut hello = make_hello([0u8; 32]);
    hello.extensions.encrypted_client_hello = Some(EncryptedClientHello::Inner);

    assert!(matches!(
        decrypt_ech::<Adding>(&hello, &[], &[], &[]),
        EchDecryptResult::InnerDirect
    ));
}

#[test]
fn rejected_no_keys() {
    let mut hello = make_hello([0u8; 32]);
    hello.extensions.encrypted_client_hello =
        Some(EncryptedClientHello::Outer(EncryptedClientHelloOuter {
            cipher_suite: HpkeSymmetricCipherSuite::default(),
            config_id: 1,
            enc: vec![0u8; 32],
            payload: vec![0u8; 64],
        }));

    assert!(matches!(
        decrypt_ech::<Adding>(&hello, &[], &[], &[]),
        EchDecryptResult::Rejected
    ));
}

#[test]
fn rejected_config_id_mismatch() {
    let mut hello = make_hello([0u8; 32]);
    hello.extensions.encrypted_client_hello =
        Some(EncryptedClientHello::Outer(EncryptedClientHelloOuter {
            cipher_suite: HpkeSymmetricCipherSuite::default(),
            config_id: 99,
            enc: vec![0u8; 32],
            payload: vec![0u8; 64],
        }));

    // Key has config_id=1, hello has config_id=99, so should be rejected
    let key = plain_key(1);

    assert!(matches!(
        decrypt_ech(&hello, &[], &[], &[key]),
        EchDecryptResult::Rejected
    ));
}

fn decrypt_message(message: &[u8], keys: &[EchServerKey<Adding>]) -> EchDecryptResult<AddingOpener> {
    let outer = parse_client_hello(message).unwrap();
    let extensions = extract_extensions_from_client_hello(message).unwrap();
    decrypt_ech(&outer, message, extensions, keys)
}

#[test]
fn accepts_what_a_client_sealed() {
    let key = server_key(5, 0x33);
    let mut sealer = sealer_for(&key, &[9; 32]);
    let mut plaintext = make_inner([0x42; 32]).get_encoding();
    plaintext.extend([0u8; 20]);
    let message = sealed_hello(&mut sealer, 5, &[9; 32], &plaintext);
    let keys = [server_key(5, 0x77), server_key(6, 0x33), key.with_retry(false)];
    match decrypt_message(&message, &keys) {
        EchDecryptResult::Accepted { inner_hello, inner_hello_raw, .. } => {
            assert_eq!(inner_hello.random.0, [0x42; 32]);
            assert_eq!(inner_hello_raw, restored_inner([0x42; 32]));
        }
        _ => panic!("not accepted"),
    }
    // Without the right key, or with a changed hello, there is nothing to be had.
    assert!(matches!(decrypt_message(&message, &keys[..2]), EchDecryptResult::Rejected));
    let mut changed = message.clone();
    changed[10] ^= 1;
    assert!(matches!(decrypt_message(&changed, &keys), EchDecryptResult::Rejected));
}

#[test]
fn references_are_resolved_end_to_end() {
    // The outer hello has another extension, which the inner one refers to.
    let insert = |hello: &ClientHelloPayload, ext: &[u8]| {
        let mut bytes = hello.get_encoding();
        let at = 2 + 32 + 1 + bytes[34] as usize + 4 + 2;
        let len = u16::from_be_bytes([bytes[at], bytes[at + 1]]) as usize + ext.len();
        bytes[at..at + 2].copy_from_slice(&(len as u16).to_be_bytes());
        bytes.splice(at + 2..at + 2, ext.iter().copied());
        bytes
    };
    let key_share = raw_ext(0x0033, &[0xaa, 0xbb]);
    let key = server_key(5, 0x33);
    let mut sealer = sealer_for(&key, &[9; 32]);
    let mut seal = |enc: &[u8], random: u8| {
        let mut plaintext = insert(&make_inner([random; 32]), &outer_ext_ref(&[0x0033]));
        plaintext.extend([0u8; 5]);
        let blank = with_offer(offer(5, enc.to_vec(), vec![0; plaintext.len() + 1]));
        let payload = sealer.seal(&insert(&blank, &key_share), &plaintext);
        let outer = with_offer(offer(5, enc.to_vec(), payload));
        encode_inner_hello(&insert(&outer, &key_share))
    };
    let first = seal(&[9; 32], 1);
    let second = seal(&[], 2);
    let expected = |random: u8| {
        let mut inner = make_inner([random; 32]);
        inner.session_id = SessionId::from_slice(&[0xab; 32]).unwrap();
        encode_inner_hello(&insert(&inner, &key_share))
    };
    let mut proxy = EchProxy::new(keys_of(vec![server_key(5, 0x33)]));
    let index = ech_proxy::EchKeyIndex::new(vec![server_key(5, 0x33)]);
    let mut indexed = ech_proxy::EchProxy::new(Arc::new(index));
    for (message, random) in [(first, 1), (second, 2)] {
        match proxy.process_client_hello_msg(&message).unwrap() {
            EchProxyResult::Decrypted(inner) => assert_eq!(inner, expected(random)),
            r => panic!("{r:?}"),
        }
        match indexed.process(&message).unwrap() {
            ech_proxy::EchProxyResult::Decrypted(inner) => assert_eq!(inner, expected(random)),
            r => panic!("{r:?}"),
        }
    }
}

#[test]
fn malformed_inner_hello_is_fatal() {
    let key = server_key(5, 0x33);
    for (plaintext, expected) in [
        (vec![], PeerMisbehaved::InvalidEchClientHelloInner),
        (vec![1, 2, 3], PeerMisbehaved::InvalidEchClientHelloInner),
        (
            [make_inner([1; 32]).get_encoding(), vec![1]].concat(),
            PeerMisbehaved::InvalidEchPadding,
        ),
    ] {
        let mut sealer = sealer_for(&key, &[9; 32]);
        let message = sealed_hello(&mut sealer, 5, &[9; 32], &plaintext);
        match decrypt_message(&message, &[server_key(5, 0x33), server_key(5, 0x44)]) {
            EchDecryptResult::Fatal(Error::PeerMisbehaved(e)) => assert_eq!(e, expected),
            _ => panic!("not fatal"),
        }
    }
}

#[test]
fn rejected_if_no_secret_is_encapsulated() {
    let key = server_key(5, 0x33);
    let hello = with_offer(offer(5, vec![], vec![1, 2]));
    assert!(matches!(decrypt_ech(&hello, &[], &[], &[key]), EchDecryptResult::Rejected));
}

#[test]
fn rejected_cipher_suite_mismatch() {
    let mut ext = offer(1, vec![1], vec![2]);
    ext.cipher_suite = suite(2).sym;
    let hello = with_offer(ext);
    assert!(matches!(
        decrypt_ech(&hello, &[], &[], &[server_key(1, 0)]),
        EchDecryptResult::Rejected
    ));
}

// --- Resolution over two ClientHellos ---

#[test]
fn default_status() {
    assert_eq!(EchStatus::default(), EchStatus::NotOffered);
}

#[test]
fn nothing_opens_without_a_context() {
    assert_eq!(general(NoOpOpener.open(&[], &[1])), "no HPKE context available");
}

fn accepted_state(key: &EchServerKey<Adding>, message: &[u8]) -> EchServerState<AddingOpener> {
    match resolve_ech(&parsed_input(message), std::slice::from_ref(key), None, false) {
        Ok(EchOffer::Resolved { inner_input: Some(_), state }) => state,
        _ => panic!("not accepted"),
    }
}

#[test]
fn first_and_second_hello_are_resolved() {
    let key = server_key(5, 0x33);
    let mut sealer = sealer_for(&key, &[9; 32]);
    let first = sealed_hello(&mut sealer, 5, &[9; 32], &make_inner([1; 32]).get_encoding());
    let second = sealed_hello(&mut sealer, 5, &[], &make_inner([2; 32]).get_encoding());

    let input = parsed_input(&first);
    let keys = [key];
    let Ok(EchOffer::Resolved { inner_input: Some(inner), mut state }) =
        resolve_ech(&input, &keys, None, false)
    else {
        panic!("not resolved")
    };
    assert_eq!(state.status, EchStatus::Accepted);
    assert_eq!(state.inner_random.0, [1; 32]);
    assert_eq!(state.config_id, Some(5));
    assert_eq!(state.cipher_suite, Some(HpkeSymmetricCipherSuite::default()));
    assert_eq!(state.retry_configs.len(), 1);
    match inner.message.payload {
        MessagePayload::Handshake { encoded, .. } => {
            assert_eq!(encoded, encode_inner_hello(&restored_inner([1; 32])));
        }
        MessagePayload::Other { .. } => unreachable!(),
    }

    let Ok(EchOffer::ResolvedHrr(inner)) =
        resolve_ech(&parsed_input(&second), &keys, Some(&mut state), true)
    else {
        panic!("not resolved")
    };
    assert_eq!(inner.message.version, 0x0303);
    assert_eq!(state.inner_random.0, [2; 32]);
    assert_eq!(state.status, EchStatus::Accepted);
}

#[test]
fn second_hello_errors() {
    let key = server_key(5, 0x33);
    let mut sealer = sealer_for(&key, &[9; 32]);
    let first = sealed_hello(&mut sealer, 5, &[9; 32], &make_inner([1; 32]).get_encoding());
    let second_with = |change: &dyn Fn(&mut EncryptedClientHelloOuter)| {
        let mut ext = offer(5, vec![], vec![1, 2, 3]);
        change(&mut ext);
        encode_inner_hello(&with_offer(ext).get_encoding())
    };
    let resolve = |message: &[u8]| {
        let mut state = accepted_state(&key, &first);
        let r = resolve_ech::<Adding>(&parsed_input(message), &[], Some(&mut state), true);
        misbehaved(r)
    };
    let missing = encode_inner_hello(&make_hello([3; 32]).get_encoding());
    assert_eq!(resolve(&missing), PeerMisbehaved::MissingEchExtension);
    assert_eq!(
        resolve(&second_with(&|e| e.enc = vec![1])),
        PeerMisbehaved::InvalidEchClientHelloInner
    );
    assert_eq!(resolve(&second_with(&|e| e.config_id = 6)), PeerMisbehaved::EchHrrMismatch);
    assert_eq!(
        resolve(&second_with(&|e| e.cipher_suite = suite(2).sym)),
        PeerMisbehaved::EchHrrMismatch
    );
    assert_eq!(resolve(&second_with(&|_| ())), PeerMisbehaved::EchHrrDecryptionFailed);
    // A second hello must be told apart from one for a state without a context.
    let hello = with_offer(offer(5, vec![], vec![1, 2, 3]));
    let encoded = encode_inner_hello(&hello.get_encoding());
    assert_eq!(
        misbehaved(decrypt_ech_hrr(&hello, &encoded, &[], &mut NoOpOpener, None, None)),
        PeerMisbehaved::EchHrrDecryptionFailed
    );
    let inner = make_inner([1; 32]);
    assert_eq!(
        misbehaved(decrypt_ech_hrr(&inner, &[], &[], &mut NoOpOpener, None, None)),
        PeerMisbehaved::InvalidEchClientHelloInner
    );
}

#[test]
fn hello_that_is_itself_inner() {
    let inner = make_inner([8; 32]);
    let encoded = encode_inner_hello(&inner.get_encoding());
    let Ok(EchOffer::Resolved { inner_input: None, mut state }) =
        resolve_ech::<Adding>(&input_of(inner, encoded), &[], None, false)
    else {
        panic!("not resolved")
    };
    assert_eq!(state.status, EchStatus::AcceptedInnerDirect);
    assert_eq!(state.inner_random.0, [8; 32]);
    assert!(state.retry_configs.is_empty());
    let again = make_inner([9; 32]);
    let r = resolve_ech::<Adding>(&input_of(again, vec![]), &[], Some(&mut state), true);
    assert!(matches!(r, Ok(EchOffer::NotNeeded)));
    assert_eq!(state.inner_random.0, [9; 32]);
}

#[test]
fn rejected_and_unneeded_offers() {
    let message = encode_inner_hello(&with_offer(offer(1, vec![1], vec![2])).get_encoding());
    let keys = [server_key(2, 0), server_key(3, 0).with_retry(false)];
    let Ok(EchOffer::Resolved { inner_input: None, mut state }) =
        resolve_ech(&parsed_input(&message), &keys, None, false)
    else {
        panic!("not resolved")
    };
    assert_eq!(state.status, EchStatus::Rejected);
    assert_eq!(state.retry_configs.len(), 1);
    assert_eq!(state.inner_random.0, [0; 32]);
    let r = resolve_ech(&parsed_input(&message), &keys, Some(&mut state), true);
    assert!(matches!(r, Ok(EchOffer::NotNeeded)));
    let r = resolve_ech::<Adding>(&parsed_input(&message), &[], None, false);
    assert!(matches!(r, Ok(EchOffer::NotNeeded)));
    let r = resolve_ech(&parsed_input(&message), &keys, None, true);
    assert!(matches!(r, Ok(EchOffer::NotNeeded)));
    let plain = encode_inner_hello(&make_hello([0; 32]).get_encoding());
    let r = resolve_ech(&parsed_input(&plain), &keys, None, false);
    assert!(matches!(r, Ok(EchOffer::NotNeeded)));
    let hello = with_offer(offer(1, vec![1], vec![2]));
    let r = resolve_ech(&input_of(hello, vec![1]), &keys, None, false);
    assert_eq!(misbehaved(r), PeerMisbehaved::InvalidEchClientHelloInner);
}

#[test]
fn other_messages_are_inappropriate() {
    let input = |payload: MessagePayload| Input {
        message: Message { version: 0x0303, payload },
        aligned_handshake: None,
    };
    let finished = input(MessagePayload::Handshake {
        parsed: HandshakePayload::Other { typ: 20, body: vec![] },
        encoded: vec![],
    });
    assert_eq!(
        resolve_ech::<Adding>(&finished, &[], None, false).err(),
        Some(Error::InappropriateHandshakeMessage { got_type: 20 })
    );
    let alert = input(MessagePayload::Other { content_type: 21, data: vec![] });
    assert_eq!(
        resolve_ech::<Adding>(&alert, &[], None, true).err(),
        Some(Error::InappropriateMessage { got_type: 21 })
    );
}

#[test]
fn inner_input_replaces_the_outer_one() {
    let outer = parsed_input(&encode_inner_hello(&make_hello([0; 32]).get_encoding()));
    let input = make_inner_input(&outer, make_inner([1; 32]), &[0xaa, 0xbb]);
    assert_eq!(input.message.version, 0x0303);
    match input.message.payload {
        MessagePayload::Handshake { parsed: HandshakePayload::ClientHello(h), encoded } => {
            assert_eq!(h, make_inner([1; 32]));
            assert_eq!(encoded, [1, 0, 0, 2, 0xaa, 0xbb]);
        }
        _ => unreachable!(),
    }
}

#[test]
fn confirmation_of_acceptance() {
    // The label, derived step by step.
    let random = [0x5a; 32];
    let transcript = [0xc3; 32];
    let info: Vec<u8> = [
        &[0x00u8, 0x08, 29][..],
        b"tls13 ech accept confirmation",
        &[32],
        &transcript,
    ]
    .concat();
    let okm = HkdfSha256.extract_and_expand(&random, &info, 8);
    let confirmation = server_ech_confirmation(&HkdfSha256, &random, &transcript);
    assert_eq!(confirmation[..], okm[..]);

    let prk = ring::hkdf::Salt::new(ring::hkdf::HKDF_SHA256, &[]).extract(&random);
    let mut expected = [0u8; 8];
    prk.expand(&[&info], quic_ech_proxy::initial_keys::ArbitraryOutputLen(8))
        .unwrap()
        .fill(&mut expected)
        .unwrap();
    assert_eq!(confirmation, expected);
}

// --- Split-mode proxy ---

#[test]
fn is_client_hello_record_accepts_valid() {
    // 0x16 = Handshake, version, length, then 0x01 = ClientHello
    let record = [0x16, 0x03, 0x01, 0x00, 0x05, 0x01, 0x00, 0x00, 0x01, 0x00];
    assert!(is_client_hello_record(&record));
}

#[test]
fn is_client_hello_record_rejects_non_handshake() {
    // 0x17 = Application data
    let record = [0x17, 0x03, 0x01, 0x00, 0x01, 0x01];
    assert!(!is_client_hello_record(&record));
}

#[test]
fn is_client_hello_record_rejects_non_client_hello() {
    // Handshake but type 0x02 = ServerHello
    let record = [0x16, 0x03, 0x01, 0x00, 0x01, 0x02];
    assert!(!is_client_hello_record(&record));
}

#[test]
fn is_client_hello_record_rejects_too_short() {
    let record = [0x16, 0x03, 0x01, 0x00];
    assert!(!is_client_hello_record(&record));
}

#[test]
fn parse_tls_record_valid() {
    let record = [0x16, 0x03, 0x01, 0x00, 0x03, 0xAA, 0xBB, 0xCC];
    let (version, payload) = parse_tls_record(&record).unwrap();
    assert_eq!(version, 0x0301);
    assert_eq!(payload, &[0xAA, 0xBB, 0xCC]);
}

#[test]
fn parse_tls_record_rejects_too_short() {
    assert!(parse_tls_record(&[0x16, 0x03]).is_err());
    assert_eq!(general(parse_tls_record(&[0x16, 0x03])), "TLS record too short");
}

#[test]
fn parse_tls_record_rejects_non_handshake() {
    let record = [0x17, 0x03, 0x01, 0x00, 0x01, 0x00];
    assert!(parse_tls_record(&record).is_err());
    assert_eq!(general(parse_tls_record(&record)), "not a Handshake TLS record");
}

#[test]
fn parse_tls_record_rejects_truncated_payload() {
    // Claims 10 bytes of payload but only has 3
    let record = [0x16, 0x03, 0x01, 0x00, 0x0A, 0x01, 0x02, 0x03];
    assert!(parse_tls_record(&record).is_err());
    assert_eq!(general(parse_tls_record(&record)), "TLS record truncated");
}

#[test]
fn wrap_handshake_round_trips() {
    let msg = &[0x01, 0x02, 0x03];
    let record = wrap_handshake_in_record(0x0301, msg);
    let (version, payload) = parse_tls_record(&record).unwrap();
    assert_eq!(version, 0x0301);
    assert_eq!(payload, msg);
}

#[test]
fn parse_client_hello_errors() {
    assert_eq!(
        general(parse_client_hello(&[0x02, 0, 0, 0])),
        "not a ClientHello handshake message"
    );
    for message in [&[][..], &[0x01, 0, 0], &[0x01, 0, 0, 0, 3, 3]] {
        assert_eq!(
            misbehaved(parse_client_hello(message)),
            PeerMisbehaved::InvalidEchClientHelloInner
        );
    }
}

fn keys_of(keys: Vec<EchServerKey<Adding>>) -> Arc<[EchServerKey<Adding>]> {
    Arc::from(keys)
}

#[test]
fn proxy_decrypts_records() {
    let key = server_key(5, 0x33);
    let mut sealer = sealer_for(&key, &[9; 32]);
    let first = sealed_hello(&mut sealer, 5, &[9; 32], &make_inner([1; 32]).get_encoding());
    let second = sealed_hello(&mut sealer, 5, &[], &make_inner([2; 32]).get_encoding());
    let mut proxy = EchProxy::new(keys_of(vec![key]));

    let forward = proxy.process_client_record(&wrap_handshake_in_record(0x0301, &first)).unwrap();
    let inner = encode_inner_hello(&restored_inner([1; 32]));
    assert_eq!(forward, wrap_handshake_in_record(0x0301, &inner));
    assert!(!proxy.is_done());

    let forward = proxy.process_client_record(&wrap_handshake_in_record(0x0303, &second)).unwrap();
    let inner = encode_inner_hello(&restored_inner([2; 32]));
    assert_eq!(forward, wrap_handshake_in_record(0x0303, &inner));
    assert!(proxy.is_done());
}

#[test]
fn proxy_decrypts_messages() {
    let key = server_key(5, 0x33);
    let mut sealer = sealer_for(&key, &[9; 32]);
    let first = sealed_hello(&mut sealer, 5, &[9; 32], &make_inner([1; 32]).get_encoding());
    let second = sealed_hello(&mut sealer, 5, &[], &make_inner([2; 32]).get_encoding());
    let mut proxy = EchProxy::new(keys_of(vec![key]));
    match proxy.process_client_hello_msg(&first).unwrap() {
        EchProxyResult::Decrypted(inner) => {
            assert_eq!(inner, encode_inner_hello(&restored_inner([1; 32])));
        }
        r => panic!("{r:?}"),
    }
    assert!(!proxy.is_done());
    match proxy.process_client_hello_msg(&second).unwrap() {
        EchProxyResult::Decrypted(inner) => {
            assert_eq!(inner, encode_inner_hello(&restored_inner([2; 32])));
        }
        r => panic!("{r:?}"),
    }
    assert!(proxy.is_done());
}

#[test]
fn proxy_forwards_everything_else() {
    let plain = encode_inner_hello(&make_hello([0; 32]).get_encoding());
    let rejected = encode_inner_hello(&with_offer(offer(9, vec![1], vec![2])).get_encoding());
    for record in [
        vec![0x17, 0x03, 0x03, 0x00, 0x01, 0xff],
        vec![],
        wrap_handshake_in_record(0x0301, &plain),
        wrap_handshake_in_record(0x0301, &rejected),
    ] {
        let mut proxy = EchProxy::new(keys_of(vec![server_key(5, 0x33)]));
        assert_eq!(proxy.process_client_record(&record).unwrap(), record);
        assert!(proxy.is_done());
    }
    let mut proxy = EchProxy::new(keys_of(vec![server_key(5, 0x33)]));
    assert!(matches!(proxy.process_client_hello_msg(&plain), Ok(EchProxyResult::NotOffered)));
    let mut proxy = EchProxy::new(keys_of(vec![server_key(5, 0x33)]));
    match proxy.process_client_hello_msg(&rejected).unwrap() {
        EchProxyResult::Rejected(list) => {
            let config = encoded_config(&make_v18_config(5));
            assert_eq!(list[..2], [0, config.len() as u8]);
            assert_eq!(list[2..], config[..]);
        }
        r => panic!("{r:?}"),
    }
}

#[test]
fn hello_without_extensions_passes() {
    let record: Vec<u8> = [
        &[0x16u8, 3, 1, 0, 0x2d, 1, 0, 0, 0x29, 3, 3][..],
        &[0; 32],
        &[0, 0, 2, 0x13, 0x01, 1, 0],
    ]
    .concat();
    for keys in [vec![], vec![server_key(5, 0x33)]] {
        let mut proxy = EchProxy::new(keys_of(keys));
        assert_eq!(proxy.process_client_record(&record).unwrap(), record);
        assert!(proxy.is_done());
    }
    let message = &record[5..];
    let keys = [server_key(5, 0x33)];
    let mut proxy = EchProxy::new(keys_of(vec![server_key(5, 0x33)]));
    assert!(matches!(proxy.process_client_hello_msg(message), Ok(EchProxyResult::NotOffered)));
    let r = resolve_ech(&parsed_input(message), &keys, None, false);
    assert!(matches!(r, Ok(EchOffer::NotNeeded)));
    let index = ech_proxy::EchKeyIndex::new(vec![server_key(5, 0x33)]);
    let mut proxy = ech_proxy::EchProxy::new(Arc::new(index));
    assert!(matches!(proxy.process(message), Ok(ech_proxy::EchProxyResult::NotOffered)));
}

#[test]
fn proxy_refuses_the_inner_marker() {
    let inner = encode_inner_hello(&make_inner([0; 32]).get_encoding());
    let mut proxy = EchProxy::new(keys_of(vec![server_key(5, 0x33)]));
    assert_eq!(
        misbehaved(proxy.process_client_hello_msg(&inner)),
        PeerMisbehaved::InvalidEchClientHelloInner
    );
    assert!(!proxy.is_done());
    let record = wrap_handshake_in_record(0x0301, &inner);
    assert!(proxy.process_client_record(&record).is_err());
    let truncated = &record[..record.len() - 1];
    assert_eq!(general(proxy.process_client_record(truncated)), "TLS record truncated");
}

#[test]
fn indexed_proxy_decrypts_two_messages() {
    let key = server_key(5, 0x33);
    let mut sealer = sealer_for(&key, &[9; 32]);
    let first = sealed_hello(&mut sealer, 5, &[9; 32], &make_inner([1; 32]).get_encoding());
    let second = sealed_hello(&mut sealer, 5, &[], &make_inner([2; 32]).get_encoding());
    let index = ech_proxy::EchKeyIndex::new(vec![server_key(4, 1), key]);
    assert_eq!(index.keys().len(), 2);
    assert_eq!(index.retry_configs().len(), 2);
    let mut proxy = ech_proxy::EchProxy::new(Arc::new(index));
    for (message, random) in [(first, [1; 32]), (second, [2; 32])] {
        match proxy.process(&message).unwrap() {
            ech_proxy::EchProxyResult::Decrypted(inner) => {
                assert_eq!(inner, encode_inner_hello(&restored_inner(random)));
            }
            r => panic!("{r:?}"),
        }
    }
}

#[test]
fn indexed_proxy_answers_with_retry_configs() {
    let new = |keys| ech_proxy::EchProxy::new(Arc::new(ech_proxy::EchKeyIndex::new(keys)));
    let rejected = encode_inner_hello(&with_offer(offer(9, vec![1], vec![2])).get_encoding());
    let plain = encode_inner_hello(&make_hello([0; 32]).get_encoding());
    let mut proxy = new(vec![server_key(5, 0x33), server_key(6, 0).with_retry(false)]);
    for _ in 0..2 {
        match proxy.process(&rejected).unwrap() {
            ech_proxy::EchProxyResult::Rejected(list) => {
                let config = encoded_config(&make_v18_config(5));
                assert_eq!(list, [vec![0, config.len() as u8], config].concat());
            }
            r => panic!("{r:?}"),
        }
    }
    assert!(matches!(proxy.process(&plain), Ok(ech_proxy::EchProxyResult::NotOffered)));
    // No configs to offer, or no keys at all: the list is empty.
    for keys in [vec![server_key(5, 0x33).with_retry(false)], vec![]] {
        let mut proxy = new(keys);
        match proxy.process(&rejected).unwrap() {
            ech_proxy::EchProxyResult::Rejected(list) => assert_eq!(list, [0, 0]),
            r => panic!("{r:?}"),
        }
        assert!(matches!(proxy.process(&plain), Ok(ech_proxy::EchProxyResult::NotOffered)));
    }
}

#[test]
fn indexed_proxy_errors() {
    let mut proxy =
        ech_proxy::EchProxy::new(Arc::new(ech_proxy::EchKeyIndex::new(vec![server_key(5, 0)])));
    let inner = encode_inner_hello(&make_inner([0; 32]).get_encoding());
    for message in [&[][..], &[1, 0, 0], &[1, 0, 0, 9, 3, 3], &inner] {
        assert_eq!(
            misbehaved(proxy.process(message)),
            PeerMisbehaved::InvalidEchClientHelloInner
        );
    }
    assert_eq!(
        proxy.process(&[20, 0, 0, 0]).err(),
        Some(Error::InappropriateHandshakeMessage { got_type: 20 })
    );
}
