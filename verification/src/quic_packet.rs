//! QUIC Initial packet decryption and re-encryption.
//!
//! - Decrypting client Initial packets (DCID-derived keys per RFC 9001)
//! - Re-encrypting modified Initial packets (for ECH proxy forwarding)

use vstd::prelude::*;

use crate::crypto_frames;
use crate::crypto_frames::CryptoSegment;
use crate::error::PacketError;
use crate::initial_keys;
use crate::varint;
use crate::wire;

verus! {

/// QUIC v1 Initial salt (RFC 9001 Section 5.2).
pub const QUIC_V1_SALT: [u8; 20] = [
    0x38, 0x76, 0x2c, 0xf7, 0xf5, 0x59, 0x34, 0xb3, 0x4d, 0x17, 0x9a, 0xe6, 0xa4, 0xc8, 0x0c, 0xad,
    0xcc, 0xbb, 0x7f, 0x0a,
];

/// QUIC v2 Initial salt (RFC 9369 Section 5.2).
pub const QUIC_V2_SALT: [u8; 20] = [
    0x0d, 0xed, 0xe3, 0xde, 0xf7, 0x00, 0xa6, 0xdb, 0x81, 0x93, 0x81, 0xbe, 0x6e, 0x26, 0x9d, 0xcb,
    0xf9, 0xbd, 0x2e, 0xd9,
];

pub const QUIC_V1: u32 = 0x00000001;

pub const QUIC_V2: u32 = 0x6b3343cf;

/// Minimum QUIC Initial packet size in a UDP datagram.
pub const MIN_INITIAL_SIZE: usize = 1200;

/// Parsed Initial packet header fields needed for re-encryption.
#[derive(Debug)]
pub struct InitialHeader {
    pub version: u32,
    pub dcid: Vec<u8>,
    pub scid: Vec<u8>,
    pub token: Vec<u8>,
    pub packet_number: u32,
    /// The salt to use for key derivation (v1 or v2).
    pub salt: [u8; 20],
}

/// What an Initial packet's header says.
#[verifier::ext_equal]
pub struct HeaderView {
    pub version: u32,
    pub dcid: Seq<u8>,
    pub scid: Seq<u8>,
    pub token: Seq<u8>,
    pub packet_number: u32,
    pub salt: Seq<u8>,
}

impl View for InitialHeader {
    type V = HeaderView;

    open spec fn view(&self) -> HeaderView {
        HeaderView {
            version: self.version,
            dcid: self.dcid@,
            scid: self.scid@,
            token: self.token@,
            packet_number: self.packet_number,
            salt: self.salt@,
        }
    }
}

impl Clone for InitialHeader {
    fn clone(&self) -> (c: InitialHeader)
        ensures
            c@ == self@,
    {
        let c = InitialHeader {
            version: self.version,
            dcid: self.dcid.clone(),
            scid: self.scid.clone(),
            token: self.token.clone(),
            packet_number: self.packet_number,
            salt: self.salt,
        };
        assert(c@ =~= self@);
        c
    }
}

/// Result of decrypting a QUIC Initial packet.
pub struct DecryptedInitial {
    pub header: InitialHeader,
    pub crypto_segments: Vec<CryptoSegment>,
}

/// What an Initial packet holds.
#[verifier::ext_equal]
pub struct InitialView {
    pub header: HeaderView,
    pub segments: Seq<crypto_frames::SegmentView>,
}

impl View for DecryptedInitial {
    type V = InitialView;

    open spec fn view(&self) -> InitialView {
        InitialView {
            header: self.header@,
            segments: crypto_frames::segment_views(self.crypto_segments@),
        }
    }
}

/// The salt of a QUIC version that is known here.
pub open spec fn initial_salt(version: u32) -> Option<Seq<u8>> {
    if version == QUIC_V1 {
        Some(QUIC_V1_SALT@)
    } else if version == QUIC_V2 {
        Some(QUIC_V2_SALT@)
    } else {
        None
    }
}

/// Whether the packet type bits of a long header mean Initial: 0 in version 1,
/// 1 in version 2.
pub open spec fn is_initial_type(first: u8, version: u32) -> bool {
    ||| version == QUIC_V1 && first / 16 % 4 == 0
    ||| version == QUIC_V2 && first / 16 % 4 == 1
}

/// The version field of a long header.
pub open spec fn version_field(packet: Seq<u8>) -> u32 {
    (((packet[1] * 256 + packet[2]) * 256 + packet[3]) * 256 + packet[4]) as u32
}

/// Where the parts of a protected Initial packet are: the header up to the
/// packet number takes `header_len` bytes, and `payload_len` bytes follow.
#[verifier::ext_equal]
pub struct LayoutView {
    pub version: u32,
    pub dcid: Seq<u8>,
    pub scid: Seq<u8>,
    pub token: Seq<u8>,
    pub header_len: nat,
    pub payload_len: nat,
}

/// Reads the part of an Initial packet's header that is not protected. Packets
/// with a short header, of an unknown version or of another type are not
/// Initial packets.
#[verifier::opaque]
pub open spec fn initial_layout(packet: Seq<u8>) -> Result<Option<LayoutView>, PacketError> {
    if packet.len() < 6 {
        Err(PacketError::TooShort)
    } else if packet[0] < 0x80 || !is_initial_type(packet[0], version_field(packet)) {
        Ok(None)
    } else {
        let dcid_len = packet[5] as int;
        let scid_at = 6 + dcid_len;
        if packet.len() < scid_at + 1 {
            Err(PacketError::TooShortForDcid)
        } else {
            let scid_len = packet[scid_at] as int;
            let token_at = scid_at + 1 + scid_len;
            if packet.len() < token_at {
                Err(PacketError::TooShortForScid)
            } else {
                match after_connection_ids(packet, token_at) {
                    Err(e) => Err(e),
                    Ok((token, header_len, payload_len)) => Ok(
                        Some(
                            LayoutView {
                                version: version_field(packet),
                                dcid: packet.subrange(6, scid_at),
                                scid: packet.subrange(scid_at + 1, token_at),
                                token,
                                header_len,
                                payload_len,
                            },
                        ),
                    ),
                }
            }
        }
    }
}

/// The token at `token_at`, where the header ends, and the payload's length.
pub open spec fn after_connection_ids(packet: Seq<u8>, token_at: int) -> Result<
    (Seq<u8>, nat, nat),
    PacketError,
> {
    match varint::varint_at(packet, token_at) {
        Err(e) => Err(e),
        Ok((token_len, token_len_size)) => {
            let start = token_at + token_len_size;
            let end = start + token_len;
            if end > packet.len() {
                Err(PacketError::TooShortForToken)
            } else if end == packet.len() {
                Err(PacketError::TruncatedBeforePayloadLength)
            } else {
                match varint::varint_at(packet, end) {
                    Err(e) => Err(e),
                    Ok((payload_len, size)) => if end + size + payload_len > packet.len() {
                        Err(PacketError::PayloadTooLong)
                    } else {
                        Ok((packet.subrange(start, end), (end + size) as nat, payload_len))
                    },
                }
            }
        },
    }
}

/// The first byte without its mask, which covers the low four bits.
pub open spec fn unmasked_first(first: u8, mask: Seq<u8>) -> u8 {
    first ^ (mask[0] & 0x0f)
}

/// How many bytes of packet number a first byte announces.
pub open spec fn pn_len(first: u8) -> nat {
    (first % 4 + 1) as nat
}

/// The whole header, packet number and all, without its mask.
pub open spec fn unprotected_header(packet: Seq<u8>, header_len: nat, mask: Seq<u8>) -> Seq<u8> {
    let first = unmasked_first(packet[0], mask);
    Seq::new(
        header_len + pn_len(first),
        |i: int|
            if i == 0 {
                first
            } else if i < header_len {
                packet[i]
            } else {
                packet[i] ^ mask[1 + i - header_len]
            },
    )
}

/// The packet number at the end of an unprotected header.
pub open spec fn header_packet_number(header: Seq<u8>, header_len: nat) -> nat {
    varint::be_value(header.skip(header_len as int))
}

/// A 32-bit number in 8 bytes, most significant first.
pub open spec fn be64_of_u32(n: u32) -> Seq<u8> {
    seq![
        0u8,
        0u8,
        0u8,
        0u8,
        (n / 0x100_0000) as u8,
        (n / 0x1_0000 % 256) as u8,
        (n / 0x100 % 256) as u8,
        (n % 256) as u8,
    ]
}

/// The nonce of a packet: the nonce base with the packet number, in 8 bytes,
/// mixed into its end.
pub open spec fn packet_nonce(iv: Seq<u8>, packet_number: u32) -> Seq<u8> {
    Seq::new(
        12,
        |i: int|
            if i < 4 {
                iv[i]
            } else {
                iv[i] ^ be64_of_u32(packet_number)[i - 4]
            },
    )
}

/// What is in an Initial packet, given the keys and the mask of its header.
/// A packet without CRYPTO data counts for nothing.
#[verifier::opaque]
pub open spec fn opened_initial(
    packet: Seq<u8>,
    layout: LayoutView,
    key: Seq<u8>,
    iv: Seq<u8>,
    mask: Seq<u8>,
) -> Result<Option<InitialView>, PacketError> {
    let header = unprotected_header(packet, layout.header_len, mask);
    let number = header_packet_number(header, layout.header_len) as u32;
    if header.len() > layout.header_len + layout.payload_len {
        Err(PacketError::PacketNumberTooLong)
    } else {
        match initial_keys::aes128_gcm_open(
            key,
            packet_nonce(iv, number),
            header,
            packet.subrange(header.len() as int, (layout.header_len + layout.payload_len) as int),
        ) {
            None => Err(PacketError::AeadOpenFailed),
            Some(plaintext) => match crypto_frames::crypto_frames(plaintext) {
                Err(e) => Err(e),
                Ok(segments) => if segments.len() == 0 {
                    Ok(None)
                } else {
                    Ok(
                        Some(
                            InitialView {
                                header: HeaderView {
                                    version: layout.version,
                                    dcid: layout.dcid,
                                    scid: layout.scid,
                                    token: layout.token,
                                    packet_number: number,
                                    salt: initial_salt(layout.version)->0,
                                },
                                segments,
                            },
                        ),
                    )
                },
            },
        }
    }
}

/// What is in an Initial packet that a client sent. The mask of its header
/// comes from the 16 bytes that start 4 bytes behind the unprotected part.
pub open spec fn decrypted_initial(packet: Seq<u8>) -> Result<Option<InitialView>, PacketError> {
    match initial_layout(packet) {
        Err(e) => Err(e),
        Ok(None) => Ok(None),
        Ok(Some(layout)) => if layout.payload_len < 20 {
            Err(PacketError::TooShortForSample)
        } else {
            let salt = initial_salt(layout.version)->0;
            let at = layout.header_len as int + 4;
            opened_initial(
                packet,
                layout,
                initial_keys::client_key(layout.dcid, salt),
                initial_keys::client_iv(layout.dcid, salt),
                initial_keys::hp_mask(
                    initial_keys::client_hp_key(layout.dcid, salt),
                    packet.subrange(at, at + 16),
                ),
            )
        },
    }
}

/// Where the parts of a protected Initial packet are.
pub struct InitialLayout {
    pub version: u32,
    pub dcid: Vec<u8>,
    pub scid: Vec<u8>,
    pub token: Vec<u8>,
    pub header_len: usize,
    pub payload_len: usize,
}

impl View for InitialLayout {
    type V = LayoutView;

    open spec fn view(&self) -> LayoutView {
        LayoutView {
            version: self.version,
            dcid: self.dcid@,
            scid: self.scid@,
            token: self.token@,
            header_len: self.header_len as nat,
            payload_len: self.payload_len as nat,
        }
    }
}

/// Reads the token and the payload length of a long header.
fn parse_after_connection_ids(packet: &[u8], token_at: usize) -> (r: Result<
    (Vec<u8>, usize, usize),
    PacketError,
>)
    requires
        token_at <= packet@.len(),
    ensures
        match r {
            Ok((token, header_len, payload_len)) => after_connection_ids(packet@, token_at as int)
                == Ok::<(Seq<u8>, nat, nat), PacketError>(
                (token@, header_len as nat, payload_len as nat),
            ) && token_at < header_len && header_len + payload_len <= packet.len(),
            Err(e) => after_connection_ids(packet@, token_at as int) == Err::<
                (Seq<u8>, nat, nat),
                PacketError,
            >(e),
        },
{
    let (token_len, token_len_size) = varint::read_varint(packet, token_at)?;
    let start = token_at + token_len_size;
    if token_len > (packet.len() - start) as u64 {
        return Err(PacketError::TooShortForToken);
    }
    let end = start + token_len as usize;
    if end >= packet.len() {
        return Err(PacketError::TruncatedBeforePayloadLength);
    }
    let (payload_len, payload_len_size) = varint::read_varint(packet, end)?;
    let header_len = end + payload_len_size;
    if payload_len > (packet.len() - header_len) as u64 {
        return Err(PacketError::PayloadTooLong);
    }
    let token = vstd::slice::slice_to_vec(&packet[start..end]);
    Ok((token, header_len, payload_len as usize))
}

/// Reads the part of an Initial packet's header that is not protected.
pub fn parse_initial_layout(packet: &[u8]) -> (r: Result<Option<InitialLayout>, PacketError>)
    ensures
        match r {
            Ok(Some(layout)) => {
                &&& initial_layout(packet@) == Ok::<Option<LayoutView>, PacketError>(Some(layout@))
                &&& initial_salt(layout.version) is Some
                &&& 8 <= layout.header_len
                &&& layout.header_len + layout.payload_len <= packet.len()
            },
            Ok(None) => initial_layout(packet@) == Ok::<Option<LayoutView>, PacketError>(None),
            Err(e) => initial_layout(packet@) == Err::<Option<LayoutView>, PacketError>(e),
        },
{
    reveal(initial_layout);
    if packet.len() < 6 {
        return Err(PacketError::TooShort);
    }
    let first = packet[0];
    if first < 0x80 {
        return Ok(None);
    }
    let version: u32 = ((packet[1] as u32 * 256 + packet[2] as u32) * 256 + packet[3] as u32) * 256
        + packet[4] as u32;
    if version == QUIC_V1 {
        if first / 16 % 4 != 0 {
            return Ok(None);
        }
    } else if version == QUIC_V2 {
        if first / 16 % 4 != 1 {
            return Ok(None);
        }
    } else {
        return Ok(None);
    }
    let scid_at = 6 + packet[5] as usize;
    if packet.len() < scid_at + 1 {
        return Err(PacketError::TooShortForDcid);
    }
    let token_at = scid_at + 1 + packet[scid_at] as usize;
    if packet.len() < token_at {
        return Err(PacketError::TooShortForScid);
    }
    let (token, header_len, payload_len) = parse_after_connection_ids(packet, token_at)?;
    let dcid = vstd::slice::slice_to_vec(&packet[6..scid_at]);
    let scid = vstd::slice::slice_to_vec(&packet[scid_at + 1..token_at]);
    Ok(Some(InitialLayout { version, dcid, scid, token, header_len, payload_len }))
}

proof fn lemma_be_value_bound(s: Seq<u8>)
    ensures
        s.len() <= 3 ==> varint::be_value(s) <= 0xff_ffff,
        s.len() <= 4 ==> varint::be_value(s) <= 0xffff_ffff,
{
    reveal_with_fuel(varint::be_value, 5);
}

/// Takes the mask off a header, and reads the packet number at its end.
fn unprotect_header(packet: &[u8], header_len: usize, mask: &[u8; 5]) -> (r: Option<(Vec<u8>, u32)>)
    requires
        1 <= header_len <= packet@.len(),
    ensures
        match r {
            Some((header, number)) => {
                &&& header@ == unprotected_header(packet@, header_len as nat, mask@)
                &&& header@.len() <= packet@.len()
                &&& number == header_packet_number(header@, header_len as nat)
            },
            None => unprotected_header(packet@, header_len as nat, mask@).len() > packet@.len(),
        },
{
    let first = packet[0] ^ (mask[0] & 0x0f);
    let n: usize = (first % 4) as usize + 1;
    if n > packet.len() - header_len {
        return None;
    }
    let ghost whole = unprotected_header(packet@, header_len as nat, mask@);
    let mut header: Vec<u8> = Vec::new();
    header.push(first);
    wire::put_bytes(&mut header, &packet[1..header_len]);
    assert(header@ =~= whole.take(header_len as int));
    let mut number: u32 = 0;
    let mut i: usize = 0;
    assert(Seq::<u8>::empty() =~= header@.skip(header_len as int));
    while i < n
        invariant
            0 <= i <= n <= 4,
            n == pn_len(first),
            first == unmasked_first(packet@[0], mask@),
            1 <= header_len,
            header_len + n <= packet.len(),
            whole == unprotected_header(packet@, header_len as nat, mask@),
            header@ == whole.take(header_len + i),
            number == varint::be_value(header@.skip(header_len as int)),
        decreases n - i,
    {
        let byte = packet[header_len + i] ^ mask[1 + i];
        proof {
            let before = header@.skip(header_len as int);
            assert(header@.push(byte) =~= whole.take(header_len + i + 1));
            assert(header@.push(byte).skip(header_len as int) =~= before.push(byte));
            assert(before.push(byte).drop_last() =~= before);
            lemma_be_value_bound(before);
        }
        header.push(byte);
        number = number * 256 + byte as u32;
        i = i + 1;
    }
    assert(whole.take(whole.len() as int) =~= whole);
    Some((header, number))
}

/// Builds the nonce of a packet.
fn make_nonce(iv: &[u8; 12], packet_number: u32) -> (nonce: [u8; 12])
    ensures
        nonce@ == packet_nonce(iv@, packet_number),
{
    let pn: [u8; 8] = [
        0,
        0,
        0,
        0,
        (packet_number / 0x100_0000) as u8,
        (packet_number / 0x1_0000 % 256) as u8,
        (packet_number / 0x100 % 256) as u8,
        (packet_number % 256) as u8,
    ];
    let mut nonce: [u8; 12] = *iv;
    let mut i: usize = 0;
    while i < 8
        invariant
            0 <= i <= 8,
            pn@ == be64_of_u32(packet_number),
            forall|j: int|
                0 <= j < 12 ==> #[trigger] nonce@[j] == if 4 <= j < 4 + i {
                    iv@[j] ^ pn@[j - 4]
                } else {
                    iv@[j]
                },
        decreases 8 - i,
    {
        nonce[4 + i] = nonce[4 + i] ^ pn[i];
        i = i + 1;
    }
    assert(nonce@ =~= packet_nonce(iv@, packet_number));
    nonce
}

/// Opens an Initial packet, given its keys and the mask of its header.
pub fn open_initial(
    packet: &[u8],
    layout: InitialLayout,
    key: &[u8; 16],
    iv: &[u8; 12],
    mask: &[u8; 5],
) -> (r: Result<Option<DecryptedInitial>, PacketError>)
    requires
        1 <= layout.header_len,
        layout.header_len + layout.payload_len <= packet.len(),
        initial_salt(layout.version) is Some,
    ensures
        match r {
            Ok(Some(d)) => opened_initial(packet@, layout@, key@, iv@, mask@) == Ok::<
                Option<InitialView>,
                PacketError,
            >(Some(d@)),
            Ok(None) => opened_initial(packet@, layout@, key@, iv@, mask@) == Ok::<
                Option<InitialView>,
                PacketError,
            >(None),
            Err(e) => opened_initial(packet@, layout@, key@, iv@, mask@) == Err::<
                Option<InitialView>,
                PacketError,
            >(e),
        },
{
    reveal(opened_initial);
    let (header, packet_number) = match unprotect_header(packet, layout.header_len, mask) {
        Some(h) => h,
        None => return Err(PacketError::PacketNumberTooLong),
    };
    let end = layout.header_len + layout.payload_len;
    if header.len() > end {
        return Err(PacketError::PacketNumberTooLong);
    }
    let nonce = make_nonce(iv, packet_number);
    let plaintext = match initial_keys::gcm_open(key, &nonce, &header, &packet[header.len()..end]) {
        Ok(p) => p,
        Err(_) => return Err(PacketError::AeadOpenFailed),
    };
    let segments = crypto_frames::parse_crypto_frames(&plaintext)?;
    if segments.len() == 0 {
        return Ok(None);
    }
    let salt: [u8; 20] = if layout.version == QUIC_V1 {
        QUIC_V1_SALT
    } else {
        QUIC_V2_SALT
    };
    let d = DecryptedInitial {
        header: InitialHeader {
            version: layout.version,
            dcid: layout.dcid,
            scid: layout.scid,
            token: layout.token,
            packet_number,
            salt,
        },
        crypto_segments: segments,
    };
    Ok(Some(d))
}

/// Decrypt a QUIC Initial packet and return its header and CRYPTO frame segments.
///
/// Returns `Ok(Some(...))` for Initial packets with CRYPTO data,
/// `Ok(None)` for non-Initial packets, `Err(...)` on parse/decrypt errors.
pub fn decrypt_initial(packet: &[u8]) -> (r: Result<Option<DecryptedInitial>, PacketError>)
    ensures
        match r {
            Ok(Some(d)) => decrypted_initial(packet@) == Ok::<Option<InitialView>, PacketError>(
                Some(d@),
            ),
            Ok(None) => decrypted_initial(packet@) == Ok::<Option<InitialView>, PacketError>(None),
            Err(e) => decrypted_initial(packet@) == Err::<Option<InitialView>, PacketError>(e),
        },
{
    let layout = match parse_initial_layout(packet)? {
        Some(layout) => layout,
        None => return Ok(None),
    };
    let salt: [u8; 20] = if layout.version == QUIC_V1 {
        QUIC_V1_SALT
    } else {
        QUIC_V2_SALT
    };
    let (key, iv, hp_key) = initial_keys::derive_client_initial_keys(&layout.dcid, &salt)?;
    if layout.payload_len < 20 {
        return Err(PacketError::TooShortForSample);
    }
    let sample_at = layout.header_len + 4;
    let sample = &packet[sample_at..sample_at + 16];
    assert(sample@.take(16) =~= sample@);
    let mask = initial_keys::compute_hp_mask(&hp_key, sample)?;
    open_initial(packet, layout, &key, &iv, &mask)
}

/// A CRYPTO frame that carries the start of the stream.
pub open spec fn crypto_frame_bytes(data: Seq<u8>) -> Seq<u8> {
    seq![6u8] + varint::varint_bytes(0) + varint::varint_bytes(data.len()) + data
}

/// A 32-bit number, most significant byte first.
pub open spec fn be32(n: u32) -> Seq<u8> {
    seq![
        (n / 0x100_0000) as u8,
        (n / 0x1_0000 % 256) as u8,
        (n / 0x100 % 256) as u8,
        (n % 256) as u8,
    ]
}

/// The header of an Initial packet up to the payload length. The first byte
/// announces a packet number of 2 bytes.
pub open spec fn header_start(h: HeaderView) -> Seq<u8> {
    let first: u8 = if h.version == QUIC_V2 {
        0xd1
    } else {
        0xc1
    };
    seq![first] + be32(h.version) + wire::vec8(h.dcid) + wire::vec8(h.scid)
        + varint::varint_bytes(h.token.len()) + h.token
}

/// How long the payload is that fills a packet up to the minimum size, where the
/// payload length takes 2 bytes. It is negative if the header alone is longer.
pub open spec fn payload_room(h: HeaderView) -> int {
    MIN_INITIAL_SIZE - (header_start(h).len() + 2)
}

/// The length of the payload that carries `data`: packet number, frame, padding
/// and tag. The padding fills the packet up to the minimum size.
pub open spec fn sealed_payload_len(h: HeaderView, data: Seq<u8>) -> int {
    let bare = crypto_frame_bytes(data).len() + 18;
    if bare < payload_room(h) {
        payload_room(h)
    } else {
        bare as int
    }
}

/// The encoding of the payload length: 2 bytes where the payload fills the packet
/// up to the minimum size, and the shortest encoding otherwise.
pub open spec fn payload_len_bytes(h: HeaderView, data: Seq<u8>) -> Seq<u8> {
    let payload_len = sealed_payload_len(h, data);
    if payload_len <= payload_room(h) {
        varint::varint_in_two_bytes(payload_len as nat)
    } else {
        varint::varint_bytes(payload_len as nat)
    }
}

/// The header up to the packet number.
pub open spec fn sealed_header(h: HeaderView, data: Seq<u8>) -> Seq<u8> {
    header_start(h) + payload_len_bytes(h, data)
}

/// The header with the low 16 bits of the packet number behind it.
pub open spec fn sealed_full_header(h: HeaderView, data: Seq<u8>) -> Seq<u8> {
    sealed_header(h, data) + wire::be16(h.packet_number as int)
}

/// The frame and its padding.
pub open spec fn sealed_plaintext(h: HeaderView, data: Seq<u8>) -> Seq<u8> {
    crypto_frame_bytes(data) + wire::zeros(
        (sealed_payload_len(h, data) - (crypto_frame_bytes(data).len() + 18)) as nat,
    )
}

/// A packet with the first byte and a packet number of 2 bytes masked.
pub open spec fn masked_packet(packet: Seq<u8>, header_len: int, mask: Seq<u8>) -> Seq<u8> {
    packet.update(0, packet[0] ^ (mask[0] & 0x0f)).update(
        header_len,
        packet[header_len] ^ mask[1],
    ).update(header_len + 1, packet[header_len + 1] ^ mask[2])
}

/// What AES-128-GCM makes of the plaintext.
pub open spec fn sealed_ciphertext(h: HeaderView, data: Seq<u8>) -> Option<Seq<u8>> {
    initial_keys::aes128_gcm_seal(
        initial_keys::client_key(h.dcid, h.salt),
        packet_nonce(initial_keys::client_iv(h.dcid, h.salt), h.packet_number),
        sealed_full_header(h, data),
        sealed_plaintext(h, data),
    )
}

/// The mask of the header. Its sample starts 4 bytes behind the start of the
/// packet number, and so 2 bytes into the ciphertext.
pub open spec fn sealed_mask(h: HeaderView, ciphertext: Seq<u8>) -> Seq<u8> {
    initial_keys::hp_mask(
        initial_keys::client_hp_key(h.dcid, h.salt),
        ciphertext.subrange(2, 18),
    )
}

/// The Initial packet that carries `data` as the start of the stream.
pub open spec fn encrypted_initial(h: HeaderView, data: Seq<u8>) -> Result<Seq<u8>, PacketError> {
    if crypto_frame_bytes(data).len() + 18 > usize::MAX {
        Err(PacketError::AeadSealFailed)
    } else {
        match sealed_ciphertext(h, data) {
            None => Err(PacketError::AeadSealFailed),
            Some(ciphertext) => if ciphertext.len() < 18 {
                Err(PacketError::TooShortForSample)
            } else {
                Ok(
                    masked_packet(
                        sealed_full_header(h, data) + ciphertext,
                        sealed_header(h, data).len() as int,
                        sealed_mask(h, ciphertext),
                    ),
                )
            },
        }
    }
}

/// Whether the header's fields fit what a packet can say of them: the salt is
/// the version's own, the connection IDs have a one-byte length, and the packet
/// number fits the 2 bytes that it gets.
pub open spec fn is_encodable(h: HeaderView) -> bool {
    &&& initial_salt(h.version) == Some(h.salt)
    &&& h.dcid.len() < 256
    &&& h.scid.len() < 256
    &&& h.packet_number < 65536
}

/// Whether the two lengths in the header fit in a varint.
spec fn lengths_fit(h: HeaderView, data: Seq<u8>) -> bool {
    h.token.len() < 0x4000_0000_0000_0000 && sealed_payload_len(h, data) < 0x4000_0000_0000_0000
}

/// Where the parts of the packet that carries `data` are.
pub open spec fn sealed_layout(h: HeaderView, data: Seq<u8>) -> LayoutView {
    LayoutView {
        version: h.version,
        dcid: h.dcid,
        scid: h.scid,
        token: h.token,
        header_len: sealed_header(h, data).len(),
        payload_len: sealed_payload_len(h, data) as nat,
    }
}

/// The header, and `data` as the start of the stream.
pub open spec fn carries(h: HeaderView, data: Seq<u8>) -> InitialView {
    InitialView { header: h, segments: seq![crypto_frames::SegmentView { offset: 0, data }] }
}

/// Whether `packet`, which carries `data`, has its parts where the header says,
/// and decrypts to its contents.
pub open spec fn gives_back(packet: Seq<u8>, h: HeaderView, data: Seq<u8>) -> bool {
    &&& initial_layout(packet) == Ok::<Option<LayoutView>, PacketError>(
        Some(sealed_layout(h, data)),
    )
    &&& decrypted_initial(packet) == Ok::<Option<InitialView>, PacketError>(Some(carries(h, data)))
}

/// Whether a packet can carry `data`: neither its plaintext nor its header is too
/// long for AES-GCM, and the length of its payload is a number of the machine.
pub open spec fn can_seal(h: HeaderView, data: Seq<u8>) -> bool {
    &&& sealed_plaintext(h, data).len() <= initial_keys::MAX_GCM_PLAINTEXT
    &&& sealed_full_header(h, data).len() <= initial_keys::MAX_GCM_AAD
    &&& crypto_frame_bytes(data).len() + 18 <= usize::MAX
}

/// The size of the packet that carries `data`: header, plaintext and tag.
pub open spec fn sealed_size(h: HeaderView, data: Seq<u8>) -> nat {
    sealed_full_header(h, data).len() + sealed_plaintext(h, data).len() + 16
}

proof fn lemma_padding_has_no_frames(n: nat)
    ensures
        crypto_frames::crypto_frames(wire::zeros(n)) == Ok::<
            Seq<crypto_frames::SegmentView>,
            PacketError,
        >(Seq::empty()),
    decreases n,
{
    if n > 0 {
        let s = wire::zeros(n);
        assert(s =~= Seq::<u8>::empty() + varint::varint_bytes(0) + wire::zeros((n - 1) as nat));
        varint::varint_round_trip(Seq::empty(), 0, wire::zeros((n - 1) as nat));
        assert(s.skip(1) =~= wire::zeros((n - 1) as nat));
        lemma_padding_has_no_frames((n - 1) as nat);
    }
}

/// A CRYPTO frame behind which there is only padding.
proof fn lemma_frames_of_plaintext(data: Seq<u8>, padding: nat)
    requires
        data.len() < 0x4000_0000_0000_0000,
    ensures
        crypto_frames::crypto_frames(crypto_frame_bytes(data) + wire::zeros(padding)) == Ok::<
            Seq<crypto_frames::SegmentView>,
            PacketError,
        >(seq![crypto_frames::SegmentView { offset: 0, data }]),
{
    let pad = wire::zeros(padding);
    let s = crypto_frame_bytes(data) + pad;
    let len = varint::varint_bytes(data.len());
    let body = varint::varint_bytes(0) + len + data + pad;
    assert(varint::varint_bytes(6) =~= seq![6u8]);
    assert(varint::varint_bytes(0) =~= seq![0u8]);
    assert(s =~= Seq::<u8>::empty() + varint::varint_bytes(6) + body);
    varint::varint_round_trip(Seq::empty(), 6, body);
    assert(s.skip(1) =~= body);
    assert(body =~= Seq::<u8>::empty() + varint::varint_bytes(0) + (len + data + pad));
    varint::varint_round_trip(Seq::empty(), 0, len + data + pad);
    assert(body =~= varint::varint_bytes(0) + len + (data + pad));
    varint::varint_round_trip(varint::varint_bytes(0), data.len() as u64, data + pad);
    let start = (1 + len.len()) as int;
    assert(body.subrange(start, start + data.len()) =~= data);
    assert(body.skip(start + data.len()) =~= pad);
    lemma_padding_has_no_frames(padding);
    let segment = crypto_frames::SegmentView { offset: 0, data };
    assert(crypto_frames::crypto_frame(body) == Ok::<(crypto_frames::SegmentView, nat), PacketError>(
        (segment, (start + data.len()) as nat),
    ));
    assert(seq![segment] + Seq::<crypto_frames::SegmentView>::empty() =~= seq![segment]);
}

proof fn lemma_mask_twice(first: u8, m: u8)
    ensures
        (first ^ (m & 0x0f)) ^ (m & 0x0f) == first,
        (first ^ m) ^ m == first,
        first >= 0x80 ==> (first ^ (m & 0x0f)) >= 0x80,
        (first ^ (m & 0x0f)) / 16 % 4 == first / 16 % 4,
{
    assert((first ^ (m & 0x0f)) ^ (m & 0x0f) == first) by (bit_vector);
    assert((first ^ m) ^ m == first) by (bit_vector);
    assert(first >= 0x80 ==> (first ^ (m & 0x0f)) >= 0x80) by (bit_vector);
    assert((first ^ (m & 0x0f)) / 16 % 4 == first / 16 % 4) by (bit_vector);
}

proof fn lemma_be32_round_trip(n: u32)
    ensures
        ({
            let b = be32(n);
            n == ((b[0] * 256 + b[1]) * 256 + b[2]) * 256 + b[3]
        }),
{
    assert(n / 0x1_0000 == n / 0x100_0000 * 256 + n / 0x1_0000 % 256);
    assert(n / 0x100 == n / 0x1_0000 * 256 + n / 0x100 % 256);
}

/// The first byte, the version and the connection IDs of a long header.
spec fn header_ids(first: u8, version: u32, dcid: Seq<u8>, scid: Seq<u8>) -> Seq<u8> {
    seq![first] + be32(version) + wire::vec8(dcid) + wire::vec8(scid)
}

proof fn lemma_header_ids(first: u8, version: u32, dcid: Seq<u8>, scid: Seq<u8>, rest: Seq<u8>)
    requires
        dcid.len() < 256,
        scid.len() < 256,
    ensures
        ({
            let ids = header_ids(first, version, dcid, scid);
            let packet = ids + rest;
            let scid_at = 6 + dcid.len() as int;
            let token_at = scid_at + 1 + scid.len();
            &&& ids.len() == token_at
            &&& packet[0] == first
            &&& version_field(packet) == version
            &&& packet[5] == dcid.len()
            &&& packet.subrange(6, scid_at) == dcid
            &&& packet[scid_at] == scid.len()
            &&& packet.subrange(scid_at + 1, token_at) == scid
        }),
{
    let ids = header_ids(first, version, dcid, scid);
    let packet = ids + rest;
    let v = be32(version);
    let scid_at = 6 + dcid.len() as int;
    let token_at = scid_at + 1 + scid.len();
    assert(packet[1] == v[0] && packet[2] == v[1] && packet[3] == v[2] && packet[4] == v[3]);
    lemma_be32_round_trip(version);
    assert(packet.subrange(6, scid_at) =~= dcid);
    assert(packet.subrange(scid_at + 1, token_at) =~= scid);
}

/// The token and the payload length, whatever encodes the two lengths.
proof fn lemma_after_connection_ids(
    ids: Seq<u8>,
    token_len: Seq<u8>,
    token: Seq<u8>,
    payload_len_bytes: Seq<u8>,
    payload_len: nat,
    tail: Seq<u8>,
)
    requires
        tail.len() >= payload_len,
        payload_len_bytes.len() > 0,
        varint::varint_at(
            ids + token_len + (token + payload_len_bytes + tail),
            ids.len() as int,
        ) == Ok::<(nat, nat), PacketError>((token.len(), token_len.len())),
        varint::varint_at(
            (ids + token_len + token) + payload_len_bytes + tail,
            (ids + token_len + token).len() as int,
        ) == Ok::<(nat, nat), PacketError>((payload_len, payload_len_bytes.len())),
    ensures
        after_connection_ids(
            ids + token_len + (token + payload_len_bytes + tail),
            ids.len() as int,
        ) == Ok::<(Seq<u8>, nat, nat), PacketError>(
            (
                token,
                ids.len() + token_len.len() + token.len() + payload_len_bytes.len(),
                payload_len,
            ),
        ),
{
    let packet = ids + token_len + (token + payload_len_bytes + tail);
    assert(packet =~= (ids + token_len + token) + payload_len_bytes + tail);
    let start = (ids.len() + token_len.len()) as int;
    assert(packet.subrange(start, start + token.len()) =~= token);
}

/// The layout of a packet, whatever encodes the two lengths.
proof fn lemma_layout_of_parts(
    h: HeaderView,
    first: u8,
    token_len: Seq<u8>,
    payload_len_bytes: Seq<u8>,
    payload_len: nat,
    tail: Seq<u8>,
)
    requires
        h.dcid.len() < 256,
        h.scid.len() < 256,
        first >= 0x80,
        is_initial_type(first, h.version),
        ({
            let ids = header_ids(first, h.version, h.dcid, h.scid);
            after_connection_ids(
                ids + token_len + (h.token + payload_len_bytes + tail),
                ids.len() as int,
            ) == Ok::<(Seq<u8>, nat, nat), PacketError>(
                (
                    h.token,
                    ids.len() + token_len.len() + h.token.len() + payload_len_bytes.len(),
                    payload_len,
                ),
            )
        }),
    ensures
        ({
            let ids = header_ids(first, h.version, h.dcid, h.scid);
            initial_layout(ids + token_len + (h.token + payload_len_bytes + tail)) == Ok::<
                Option<LayoutView>,
                PacketError,
            >(
                Some(
                    LayoutView {
                        version: h.version,
                        dcid: h.dcid,
                        scid: h.scid,
                        token: h.token,
                        header_len: ids.len() + token_len.len() + h.token.len()
                            + payload_len_bytes.len(),
                        payload_len,
                    },
                ),
            )
        }),
{
    reveal(initial_layout);
    let ids = header_ids(first, h.version, h.dcid, h.scid);
    let rest = token_len + (h.token + payload_len_bytes + tail);
    lemma_header_ids(first, h.version, h.dcid, h.scid, rest);
    assert(ids + rest =~= ids + token_len + (h.token + payload_len_bytes + tail));
}

/// The payload length is read back, however it is encoded.
proof fn lemma_payload_len_round_trip(before: Seq<u8>, h: HeaderView, data: Seq<u8>, after: Seq<u8>)
    requires
        lengths_fit(h, data),
    ensures
        varint::varint_at(before + payload_len_bytes(h, data) + after, before.len() as int) == Ok::<
            (nat, nat),
            PacketError,
        >((sealed_payload_len(h, data) as nat, payload_len_bytes(h, data).len())),
{
    let payload_len = sealed_payload_len(h, data);
    if payload_len <= payload_room(h) {
        varint::varint_in_two_bytes_round_trip(before, payload_len as nat, after);
    } else {
        varint::varint_round_trip(before, payload_len as u64, after);
    }
}

/// The layout of a packet that starts as the one that carries `data` does. Only
/// the bits of the first byte that say what the packet is matter.
proof fn lemma_sealed_layout(h: HeaderView, data: Seq<u8>, first: u8, tail: Seq<u8>)
    requires
        is_encodable(h),
        lengths_fit(h, data),
        tail.len() == sealed_payload_len(h, data),
        first >= 0x80,
        first / 16 % 4 == sealed_header(h, data)[0] / 16 % 4,
    ensures
        initial_layout(sealed_header(h, data).update(0, first) + tail) == Ok::<
            Option<LayoutView>,
            PacketError,
        >(Some(sealed_layout(h, data))),
{
    let ids = header_ids(first, h.version, h.dcid, h.scid);
    let payload_len = sealed_payload_len(h, data) as nat;
    let token_len = varint::varint_bytes(h.token.len());
    let payload_len_bytes = payload_len_bytes(h, data);
    let packet = sealed_header(h, data).update(0, first) + tail;
    assert(packet == ids + token_len + (h.token + payload_len_bytes + tail)) by {
        lemma_header_parts(h, first, token_len, payload_len_bytes);
        lemma_append_grouping(ids, token_len, h.token, payload_len_bytes, tail);
    }
    assert(sealed_header(h, data).len() == ids.len() + token_len.len() + h.token.len()
        + payload_len_bytes.len()) by {
        lemma_header_parts(h, first, token_len, payload_len_bytes);
    }
    assert(is_initial_type(first, h.version)) by {
        assert(sealed_header(h, data)[0] == header_start(h)[0]);
    }
    assert(payload_len_bytes.len() > 0);
    varint::varint_round_trip(ids, h.token.len() as u64, h.token + payload_len_bytes + tail);
    lemma_payload_len_round_trip(ids + token_len + h.token, h, data, tail);
    lemma_after_connection_ids(ids, token_len, h.token, payload_len_bytes, payload_len, tail);
    lemma_layout_of_parts(h, first, token_len, payload_len_bytes, payload_len, tail);
}

proof fn lemma_append_grouping(a: Seq<u8>, b: Seq<u8>, c: Seq<u8>, d: Seq<u8>, e: Seq<u8>)
    ensures
        (a + b + c + d) + e == a + b + (c + d + e),
{
    assert((a + b + c + d) + e =~= a + b + (c + d + e));
}

/// The header of the packet that carries `data`, with another first byte.
proof fn lemma_header_parts(h: HeaderView, first: u8, token_len: Seq<u8>, payload_len: Seq<u8>)
    requires
        token_len == varint::varint_bytes(h.token.len()),
    ensures
        (header_start(h) + payload_len).update(0, first) == header_ids(
            first,
            h.version,
            h.dcid,
            h.scid,
        ) + token_len + h.token + payload_len,
{
    assert((header_start(h) + payload_len).update(0, first) =~= header_ids(
        first,
        h.version,
        h.dcid,
        h.scid,
    ) + token_len + h.token + payload_len);
}

/// Taking the mask off again gives the header that was sealed.
proof fn lemma_unmasked_header(
    h: HeaderView,
    data: Seq<u8>,
    ciphertext: Seq<u8>,
    mask: Seq<u8>,
)
    ensures
        unprotected_header(
            masked_packet(
                sealed_full_header(h, data) + ciphertext,
                sealed_header(h, data).len() as int,
                mask,
            ),
            sealed_header(h, data).len(),
            mask,
        ) == sealed_full_header(h, data),
{
    let full = sealed_full_header(h, data);
    let plain = full + ciphertext;
    let n = sealed_header(h, data).len() as int;
    let packet = masked_packet(plain, n, mask);
    lemma_mask_twice(plain[0], mask[0]);
    lemma_mask_twice(plain[n], mask[1]);
    lemma_mask_twice(plain[n + 1], mask[2]);
    assert(plain[0] == full[0]);
    assert(unmasked_first(packet[0], mask) == full[0]);
    assert(pn_len(full[0]) == 2);
    assert(unprotected_header(packet, n as nat, mask) =~= full);
}

/// A packet number of 2 bytes is read back.
proof fn lemma_packet_number(h: HeaderView, data: Seq<u8>)
    requires
        h.packet_number < 65536,
    ensures
        header_packet_number(sealed_full_header(h, data), sealed_header(h, data).len())
            == h.packet_number,
{
    let pn = wire::be16(h.packet_number as int);
    assert(sealed_full_header(h, data).skip(sealed_header(h, data).len() as int) =~= pn);
    reveal_with_fuel(varint::be_value, 3);
    assert(pn.drop_last() =~= seq![pn[0]]);
}

/// What the parts of a packet say is in it.
proof fn lemma_opened_parts(
    packet: Seq<u8>,
    layout: LayoutView,
    key: Seq<u8>,
    iv: Seq<u8>,
    mask: Seq<u8>,
    header: Seq<u8>,
    number: u32,
    ciphertext: Seq<u8>,
    plaintext: Seq<u8>,
    segments: Seq<crypto_frames::SegmentView>,
)
    requires
        unprotected_header(packet, layout.header_len, mask) == header,
        header_packet_number(header, layout.header_len) == number,
        header.len() <= layout.header_len + layout.payload_len,
        packet.subrange(header.len() as int, (layout.header_len + layout.payload_len) as int)
            == ciphertext,
        initial_keys::aes128_gcm_open(key, packet_nonce(iv, number), header, ciphertext) == Some(
            plaintext,
        ),
        crypto_frames::crypto_frames(plaintext) == Ok::<
            Seq<crypto_frames::SegmentView>,
            PacketError,
        >(segments),
        segments.len() > 0,
    ensures
        opened_initial(packet, layout, key, iv, mask) == Ok::<Option<InitialView>, PacketError>(
            Some(
                InitialView {
                    header: HeaderView {
                        version: layout.version,
                        dcid: layout.dcid,
                        scid: layout.scid,
                        token: layout.token,
                        packet_number: number,
                        salt: initial_salt(layout.version)->0,
                    },
                    segments,
                },
            ),
        ),
{
    reveal(opened_initial);
}

/// The packet that carries `data` has its parts where the header says.
proof fn lemma_sealed_packet_layout(
    h: HeaderView,
    data: Seq<u8>,
    ciphertext: Seq<u8>,
    mask: Seq<u8>,
)
    requires
        is_encodable(h),
        lengths_fit(h, data),
        ciphertext.len() == sealed_plaintext(h, data).len() + 16,
    ensures
        initial_layout(
            masked_packet(
                sealed_full_header(h, data) + ciphertext,
                sealed_header(h, data).len() as int,
                mask,
            ),
        ) == Ok::<Option<LayoutView>, PacketError>(Some(sealed_layout(h, data))),
{
    let full = sealed_full_header(h, data);
    let n = sealed_header(h, data).len() as int;
    let packet = masked_packet(full + ciphertext, n, mask);
    let first = full[0] ^ (mask[0] & 0x0f);
    let tail = packet.skip(n);
    lemma_mask_twice(full[0], mask[0]);
    assert(sealed_header(h, data)[0] == full[0]);
    assert(packet =~= sealed_header(h, data).update(0, first) + tail);
    lemma_sealed_layout(h, data, first, tail);
}

/// The packet that carries `data` opens again under the mask that was put on it.
proof fn lemma_sealed_packet_opens(
    h: HeaderView,
    data: Seq<u8>,
    ciphertext: Seq<u8>,
    mask: Seq<u8>,
)
    requires
        is_encodable(h),
        lengths_fit(h, data),
        ciphertext.len() == sealed_plaintext(h, data).len() + 16,
        initial_keys::aes128_gcm_open(
            initial_keys::client_key(h.dcid, h.salt),
            packet_nonce(initial_keys::client_iv(h.dcid, h.salt), h.packet_number),
            sealed_full_header(h, data),
            ciphertext,
        ) == Some(sealed_plaintext(h, data)),
    ensures
        opened_initial(
            masked_packet(
                sealed_full_header(h, data) + ciphertext,
                sealed_header(h, data).len() as int,
                mask,
            ),
            sealed_layout(h, data),
            initial_keys::client_key(h.dcid, h.salt),
            initial_keys::client_iv(h.dcid, h.salt),
            mask,
        ) == Ok::<Option<InitialView>, PacketError>(Some(carries(h, data))),
{
    let full = sealed_full_header(h, data);
    let packet = masked_packet(full + ciphertext, sealed_header(h, data).len() as int, mask);
    lemma_unmasked_header(h, data, ciphertext, mask);
    lemma_packet_number(h, data);
    assert(full.len() == sealed_header(h, data).len() + 2);
    assert(packet.subrange(full.len() as int, packet.len() as int) =~= ciphertext);
    lemma_frames_of_plaintext(
        data,
        (sealed_payload_len(h, data) - (crypto_frame_bytes(data).len() + 18)) as nat,
    );
    lemma_opened_parts(
        packet,
        sealed_layout(h, data),
        initial_keys::client_key(h.dcid, h.salt),
        initial_keys::client_iv(h.dcid, h.salt),
        mask,
        full,
        h.packet_number,
        ciphertext,
        sealed_plaintext(h, data),
        carries(h, data).segments,
    );
}

/// What is decrypted from a packet with the given layout is what opens under the
/// mask from its sample.
proof fn lemma_decrypted_parts(packet: Seq<u8>, layout: LayoutView, mask: Seq<u8>)
    requires
        initial_layout(packet) == Ok::<Option<LayoutView>, PacketError>(Some(layout)),
        layout.payload_len >= 20,
        ({
            let salt = initial_salt(layout.version)->0;
            let at = layout.header_len as int + 4;
            mask == initial_keys::hp_mask(
                initial_keys::client_hp_key(layout.dcid, salt),
                packet.subrange(at, at + 16),
            )
        }),
    ensures
        decrypted_initial(packet) == opened_initial(
            packet,
            layout,
            initial_keys::client_key(layout.dcid, initial_salt(layout.version)->0),
            initial_keys::client_iv(layout.dcid, initial_salt(layout.version)->0),
            mask,
        ),
{
}

/// Masking leaves the sample as it is.
proof fn lemma_sample(full: Seq<u8>, ciphertext: Seq<u8>, n: int, mask: Seq<u8>)
    requires
        1 <= n,
        full.len() == n + 2,
        ciphertext.len() >= 18,
    ensures
        masked_packet(full + ciphertext, n, mask).subrange(n + 4, n + 20) == ciphertext.subrange(
            2,
            18,
        ),
{
    assert(masked_packet(full + ciphertext, n, mask).subrange(n + 4, n + 20)
        =~= ciphertext.subrange(2, 18));
}

/// The frame takes at least a type, an offset and a length.
proof fn lemma_frame_size(data: Seq<u8>)
    ensures
        crypto_frame_bytes(data).len() >= 3,
{
}

proof fn lemma_gives_back(packet: Seq<u8>, h: HeaderView, data: Seq<u8>, ciphertext: Seq<u8>)
    requires
        is_encodable(h),
        lengths_fit(h, data),
        ciphertext.len() == sealed_plaintext(h, data).len() + 16,
        initial_keys::aes128_gcm_open(
            initial_keys::client_key(h.dcid, h.salt),
            packet_nonce(initial_keys::client_iv(h.dcid, h.salt), h.packet_number),
            sealed_full_header(h, data),
            ciphertext,
        ) == Some(sealed_plaintext(h, data)),
        packet == masked_packet(
            sealed_full_header(h, data) + ciphertext,
            sealed_header(h, data).len() as int,
            sealed_mask(h, ciphertext),
        ),
    ensures
        gives_back(packet, h, data),
{
    let mask = sealed_mask(h, ciphertext);
    lemma_frame_size(data);
    assert(ciphertext.len() >= 18);
    lemma_sample(
        sealed_full_header(h, data),
        ciphertext,
        sealed_header(h, data).len() as int,
        mask,
    );
    lemma_sealed_packet_layout(h, data, ciphertext, mask);
    lemma_sealed_packet_opens(h, data, ciphertext, mask);
    assert(sealed_layout(h, data).payload_len >= 20);
    lemma_decrypted_parts(packet, sealed_layout(h, data), mask);
}

/// The header of a packet that was decrypted fits a packet again, if its packet
/// number fits in 2 bytes: what is sealed under it is given back.
pub proof fn decrypted_header_is_encodable(packet: Seq<u8>, d: InitialView)
    requires
        decrypted_initial(packet) == Ok::<Option<InitialView>, PacketError>(Some(d)),
        d.header.packet_number < 65536,
    ensures
        is_encodable(d.header),
{
    reveal(initial_layout);
    reveal(opened_initial);
}

/// Every packet has at least the minimum size, and padding brings it to exactly
/// that size.
pub proof fn sealed_packet_is_padded(h: HeaderView, data: Seq<u8>)
    ensures
        sealed_size(h, data) >= MIN_INITIAL_SIZE,
        sealed_plaintext(h, data).len() > crypto_frame_bytes(data).len() ==> sealed_size(h, data)
            == MIN_INITIAL_SIZE,
{
    let payload_len = sealed_payload_len(h, data);
    assert(sealed_size(h, data) == sealed_header(h, data).len() + payload_len);
    assert(payload_len_bytes(h, data).len() >= 1);
}

/// A packet whose fields and data are short has exactly the minimum size.
pub proof fn short_packet_has_minimum_size(h: HeaderView, data: Seq<u8>)
    requires
        h.dcid.len() + h.scid.len() + h.token.len() + data.len() <= 1160,
    ensures
        sealed_size(h, data) == MIN_INITIAL_SIZE,
{
    let payload_len = sealed_payload_len(h, data);
    assert(sealed_size(h, data) == sealed_header(h, data).len() + payload_len);
    assert(header_start(h).len() == 7 + h.dcid.len() + h.scid.len() + varint::varint_bytes(
        h.token.len(),
    ).len() + h.token.len());
    assert(varint::varint_bytes(h.token.len()).len() <= 2);
    assert(varint::varint_bytes(data.len()).len() <= 2);
}

/// What can be read off a sealed packet without any key: the bits of the first
/// byte that say what it is, the rest of the header as it is, with the
/// destination connection ID in its place, and a length that says how many
/// bytes follow it.
pub proof fn sealed_packet_header(h: HeaderView, data: Seq<u8>, packet: Seq<u8>)
    requires
        h.dcid.len() < 256,
        h.scid.len() < 256,
        encrypted_initial(h, data) == Ok::<Seq<u8>, PacketError>(packet),
        packet.len() == sealed_size(h, data),
    ensures
        ({
            let n = sealed_header(h, data).len() as int;
            &&& packet[0] / 16 == if h.version == QUIC_V2 {
                0xdu8
            } else {
                0xcu8
            }
            &&& packet.subrange(1, n) == sealed_header(h, data).skip(1)
            &&& packet[5] == h.dcid.len()
            &&& packet.subrange(6, 6 + h.dcid.len() as int) == h.dcid
            &&& packet.len() == n + sealed_payload_len(h, data)
        }),
{
    let n = sealed_header(h, data).len() as int;
    let full = sealed_full_header(h, data);
    let ciphertext = sealed_ciphertext(h, data)->0;
    let mask = sealed_mask(h, ciphertext);
    let first = full[0];
    let m = mask[0];
    assert(first == 0xd1 || first == 0xc1);
    assert((first ^ (m & 0x0f)) / 16 == first / 16) by (bit_vector);
    assert(packet.subrange(1, n) =~= sealed_header(h, data).skip(1));
    assert(header_start(h)[5] == h.dcid.len());
    assert(packet.subrange(6, 6 + h.dcid.len() as int) =~= h.dcid);
}

/// Appends the header up to the payload length.
fn put_header_start(header: &InitialHeader) -> (packet: Vec<u8>)
    ensures
        packet@ == header_start(header@),
{
    let mut packet: Vec<u8> = Vec::with_capacity(MIN_INITIAL_SIZE);
    let first: u8 = if header.version == QUIC_V2 {
        0xd1
    } else {
        0xc1
    };
    packet.push(first);
    packet.push((header.version / 0x100_0000) as u8);
    packet.push((header.version / 0x1_0000 % 256) as u8);
    packet.push((header.version / 0x100 % 256) as u8);
    packet.push((header.version % 256) as u8);
    assert(packet@ =~= seq![first] + be32(header.version));
    wire::put_vec8(&mut packet, &header.dcid);
    wire::put_vec8(&mut packet, &header.scid);
    varint::write_varint(&mut packet, header.token.len() as u64);
    wire::put_bytes(&mut packet, &header.token);
    packet
}

/// Puts the mask of a 2-byte packet number and of the first byte on a packet.
fn mask_packet(packet: &mut Vec<u8>, header_len: usize, mask: &[u8; 5])
    requires
        1 <= header_len,
        header_len + 2 <= old(packet).len(),
    ensures
        final(packet)@ == masked_packet(old(packet)@, header_len as int, mask@),
{
    packet[0] = packet[0] ^ (mask[0] & 0x0f);
    packet[header_len] = packet[header_len] ^ mask[1];
    packet[header_len + 1] = packet[header_len + 1] ^ mask[2];
}

/// Build and encrypt a QUIC Initial packet with the given CRYPTO frame data.
///
/// Uses the same DCID/SCID/version as the original packet so that the
/// backend derives the same Initial keys and the client can decrypt responses.
pub fn encrypt_initial(header: &InitialHeader, crypto_data: &[u8]) -> (r: Result<
    Vec<u8>,
    PacketError,
>)
    ensures
        match r {
            Ok(packet) => encrypted_initial(header@, crypto_data@) == Ok::<Seq<u8>, PacketError>(
                packet@,
            ),
            Err(e) => encrypted_initial(header@, crypto_data@) == Err::<Seq<u8>, PacketError>(e),
        },
        r is Ok <==> can_seal(header@, crypto_data@),
        r matches Ok(packet) ==> packet@.len() == sealed_size(header@, crypto_data@),
        r matches Ok(packet) ==> (is_encodable(header@) ==> gives_back(
            packet@,
            header@,
            crypto_data@,
        )),
{
    let ghost h = header@;
    let ghost data = crypto_data@;
    let (key, iv, hp_key) = initial_keys::derive_client_initial_keys(&header.dcid, &header.salt)?;

    let mut plaintext: Vec<u8> = Vec::new();
    plaintext.push(6);
    varint::write_varint(&mut plaintext, 0);
    varint::write_varint(&mut plaintext, crypto_data.len() as u64);
    wire::put_bytes(&mut plaintext, crypto_data);
    assert(plaintext@ =~= crypto_frame_bytes(data));

    if plaintext.len() > usize::MAX - 18 {
        return Err(PacketError::AeadSealFailed);
    }
    let bare_len = plaintext.len() + 18;

    let mut packet = put_header_start(header);
    let room: usize = if packet.len() >= MIN_INITIAL_SIZE - 2 {
        0
    } else {
        MIN_INITIAL_SIZE - 2 - packet.len()
    };
    let payload_len: usize = if bare_len < room {
        room
    } else {
        bare_len
    };
    if payload_len <= room {
        varint::write_varint_in_two_bytes(&mut packet, payload_len);
    } else {
        varint::write_varint(&mut packet, payload_len as u64);
    }
    let header_len = packet.len();
    wire::put_u16(&mut packet, header.packet_number as usize);
    assert(packet@ =~= sealed_full_header(h, data));

    let padding = payload_len - bare_len;
    let ghost frame = plaintext@;
    let mut i: usize = 0;
    assert(frame + wire::zeros(0) =~= frame);
    while i < padding
        invariant
            0 <= i <= padding,
            plaintext@ == frame + wire::zeros(i as nat),
        decreases padding - i,
    {
        plaintext.push(0);
        i = i + 1;
        assert(plaintext@ =~= frame + wire::zeros(i as nat));
    }
    assert(plaintext@ == sealed_plaintext(h, data));

    let nonce = make_nonce(&iv, header.packet_number);
    let ciphertext = match initial_keys::gcm_seal(&key, &nonce, &packet, &plaintext) {
        Ok(c) => c,
        Err(_) => return Err(PacketError::AeadSealFailed),
    };
    proof {
        lemma_frame_size(data);
    }
    if ciphertext.len() < 18 {
        return Err(PacketError::TooShortForSample);
    }
    let sample = &ciphertext.as_slice()[2..18];
    assert(sample@.take(16) =~= sample@);
    let mask = initial_keys::compute_hp_mask(&hp_key, sample)?;
    wire::put_bytes(&mut packet, &ciphertext);
    mask_packet(&mut packet, header_len, &mask);
    proof {
        if is_encodable(h) {
            lemma_gives_back(packet@, h, data, ciphertext@);
        }
    }
    Ok(packet)
}

/// Check if a packet is a QUIC long header (Initial, Handshake, etc).
pub fn is_long_header(packet: &[u8]) -> (b: bool)
    ensures
        b == (packet@.len() > 0 && packet@[0] >= 0x80),
{
    packet.len() > 0 && packet[0] >= 0x80
}

/// Extract the DCID from a QUIC long header packet.
pub fn parse_long_header_dcid(packet: &[u8]) -> (dcid: Option<Vec<u8>>)
    ensures
        match dcid {
            Some(d) => packet@.len() >= 6 + packet@[5] && packet@[0] >= 0x80 && d@
                == packet@.subrange(6, 6 + packet@[5]),
            None => packet@.len() < 6 || packet@[0] < 0x80 || packet@.len() < 6 + packet@[5],
        },
{
    if packet.len() < 6 || packet[0] < 0x80 {
        return None;
    }
    let dcid_len: usize = packet[5] as usize;
    if packet.len() < 6 + dcid_len {
        return None;
    }
    Some(vstd::slice::slice_to_vec(&packet[6..6 + dcid_len]))
}

/// A client's Initial packet in its parts, before its header is protected.
pub struct ClientPacket {
    /// The first byte.
    pub first: u8,
    pub version: u32,
    pub dcid: Seq<u8>,
    pub scid: Seq<u8>,
    /// The encoding of the token's length, in any of its sizes.
    pub token_length: Seq<u8>,
    pub token: Seq<u8>,
    /// The encoding of the payload's length, in any of its sizes.
    pub length: Seq<u8>,
    /// The bytes of the packet number, of which there are 1 to 4.
    pub pn: Seq<u8>,
    /// The sealed payload.
    pub ciphertext: Seq<u8>,
}

impl ClientPacket {
    /// The header in front of the packet number.
    pub open spec fn header(self) -> Seq<u8> {
        seq![
            self.first,
            (self.version / 0x100_0000) as u8,
            (self.version / 0x1_0000 % 256) as u8,
            (self.version / 0x100 % 256) as u8,
            (self.version % 256) as u8,
            self.dcid.len() as u8,
        ] + self.dcid + seq![self.scid.len() as u8] + self.scid + self.token_length + self.token
            + self.length
    }

    /// The packet number.
    pub open spec fn number(self) -> u32 {
        if self.pn.len() == 1 {
            self.pn[0] as u32
        } else if self.pn.len() == 2 {
            (self.pn[0] * 256 + self.pn[1]) as u32
        } else if self.pn.len() == 3 {
            ((self.pn[0] * 256 + self.pn[1]) * 256 + self.pn[2]) as u32
        } else {
            (((self.pn[0] * 256 + self.pn[1]) * 256 + self.pn[2]) * 256 + self.pn[3]) as u32
        }
    }

    /// The salt of its version.
    pub open spec fn salt(self) -> Seq<u8> {
        if self.version == 0x6b3343cf {
            QUIC_V2_SALT@
        } else {
            QUIC_V1_SALT@
        }
    }

    /// The nonce: the connection's own, with the packet number on its end.
    pub open spec fn nonce(self) -> Seq<u8> {
        let iv = initial_keys::client_iv(self.dcid, self.salt());
        let n = self.number();
        Seq::new(
            12,
            |i: int|
                if i == 8 {
                    iv[8] ^ (n / 0x100_0000) as u8
                } else if i == 9 {
                    iv[9] ^ (n / 0x1_0000 % 256) as u8
                } else if i == 10 {
                    iv[10] ^ (n / 0x100 % 256) as u8
                } else if i == 11 {
                    iv[11] ^ (n % 256) as u8
                } else {
                    iv[i]
                },
        )
    }

    /// The mask that its header is protected with: 5 bytes of what AES makes of the
    /// 16 bytes that start 4 bytes behind the start of the packet number.
    pub open spec fn mask(self) -> Seq<u8> {
        initial_keys::aes128_block(
            initial_keys::client_hp_key(self.dcid, self.salt()),
            self.ciphertext.subrange(4 - self.pn.len(), 20 - self.pn.len()),
        ).take(5)
    }

    /// The packet as it is sent: the low bits of the first byte and the packet
    /// number are protected.
    pub open spec fn sent(self) -> Seq<u8> {
        let mask = self.mask();
        seq![self.first ^ (mask[0] & 0x0f)] + self.header().skip(1) + Seq::new(
            self.pn.len(),
            |i: int| self.pn[i] ^ mask[1 + i],
        ) + self.ciphertext
    }

    /// Whether the parts fit together as an Initial packet of a known version.
    pub open spec fn fits(self) -> bool {
        &&& self.first >= 0x80
        &&& self.version == 0x00000001 && self.first / 16 % 4 == 0 || self.version == 0x6b3343cf
            && self.first / 16 % 4 == 1
        &&& self.dcid.len() < 256
        &&& self.scid.len() < 256
        &&& varint::varint_at(self.token_length, 0) == Ok::<(nat, nat), PacketError>(
            (self.token.len(), self.token_length.len()),
        )
        &&& 1 <= self.pn.len() <= 4
        &&& self.first % 4 == self.pn.len() - 1
        &&& self.pn.len() + self.ciphertext.len() >= 20
        &&& varint::varint_at(self.length, 0) == Ok::<(nat, nat), PacketError>(
            (self.pn.len() + self.ciphertext.len(), self.length.len()),
        )
    }
}

proof fn lemma_masked_first(first: u8, m: u8)
    ensures
        (first ^ (m & 0x0f)) ^ (m & 0x0f) == first,
        (first ^ (m & 0x0f)) / 16 == first / 16,
{
    assert((first ^ (m & 0x0f)) ^ (m & 0x0f) == first) by (bit_vector);
    assert((first ^ (m & 0x0f)) / 16 == first / 16) by (bit_vector);
}

proof fn lemma_masked_pn(b: u8, m: u8)
    ensures
        (b ^ m) ^ m == b,
        b ^ 0 == b,
{
    assert((b ^ m) ^ m == b) by (bit_vector);
    assert(b ^ 0 == b) by (bit_vector);
}

proof fn lemma_client_packet_layout(p: ClientPacket, behind: Seq<u8>)
    requires
        p.fits(),
    ensures
        initial_layout(p.sent() + behind) == Ok::<Option<LayoutView>, PacketError>(
            Some(
                LayoutView {
                    version: p.version,
                    dcid: p.dcid,
                    scid: p.scid,
                    token: p.token,
                    header_len: p.header().len(),
                    payload_len: p.pn.len() + p.ciphertext.len(),
                },
            ),
        ),
{
    let mask = p.mask();
    let first = p.first ^ (mask[0] & 0x0f);
    lemma_masked_first(p.first, mask[0]);
    let ids = header_ids(first, p.version, p.dcid, p.scid);
    let token_len = p.token_length;
    let masked_pn = Seq::new(p.pn.len(), |i: int| p.pn[i] ^ mask[1 + i]);
    let tail = masked_pn + p.ciphertext + behind;
    let payload_len = p.pn.len() + p.ciphertext.len();
    let h = HeaderView {
        version: p.version,
        dcid: p.dcid,
        scid: p.scid,
        token: p.token,
        packet_number: 0,
        salt: p.salt(),
    };
    assert(seq![first] + p.header().skip(1) =~= ids + token_len + p.token + p.length);
    assert(p.sent() + behind =~= (ids + token_len + p.token + p.length) + tail);
    assert((ids + token_len + p.token + p.length) + tail == ids + token_len + (p.token + p.length
        + tail)) by {
        lemma_append_grouping(ids, token_len, p.token, p.length, tail);
    }
    varint::encodings_mean_the_same_everywhere(ids, token_len, p.token + p.length + tail);
    varint::encodings_mean_the_same_everywhere(ids + token_len + p.token, p.length, tail);
    assert(p.length.len() > 0);
    lemma_after_connection_ids(ids, token_len, p.token, p.length, payload_len, tail);
    lemma_layout_of_parts(h, first, token_len, p.length, payload_len, tail);
}

proof fn lemma_client_packet_header(p: ClientPacket, behind: Seq<u8>)
    requires
        p.fits(),
    ensures
        unprotected_header(p.sent() + behind, p.header().len(), p.mask()) == p.header()
            + p.pn,
        header_packet_number(p.header() + p.pn, p.header().len()) == p.number(),
{
    let mask = p.mask();
    let packet = p.sent() + behind;
    let n = p.header().len() as int;
    lemma_masked_first(p.first, mask[0]);
    assert(packet[0] == p.first ^ (mask[0] & 0x0f));
    assert(unmasked_first(packet[0], mask) == p.first);
    assert(pn_len(p.first) == p.pn.len());
    let whole = unprotected_header(packet, n as nat, mask);
    assert forall|i: int| 0 <= i < p.pn.len() implies (#[trigger] p.pn[i] ^ mask[1 + i]) ^ mask[1
        + i] == p.pn[i] by {
        lemma_masked_pn(p.pn[i], mask[1 + i]);
    }
    assert(whole =~= p.header() + p.pn);
    assert((p.header() + p.pn).skip(n) =~= p.pn);
    lemma_pn_value(p.pn);
}

proof fn lemma_pn_value(pn: Seq<u8>)
    requires
        1 <= pn.len() <= 4,
    ensures
        pn.len() == 1 ==> varint::be_value(pn) == pn[0],
        pn.len() == 2 ==> varint::be_value(pn) == pn[0] * 256 + pn[1],
        pn.len() == 3 ==> varint::be_value(pn) == (pn[0] * 256 + pn[1]) * 256 + pn[2],
        pn.len() == 4 ==> varint::be_value(pn) == ((pn[0] * 256 + pn[1]) * 256 + pn[2]) * 256
            + pn[3],
{
    reveal_with_fuel(varint::be_value, 5);
}

proof fn lemma_client_packet_nonce(p: ClientPacket)
    ensures
        packet_nonce(initial_keys::client_iv(p.dcid, p.salt()), p.number()) == p.nonce(),
{
    let iv = initial_keys::client_iv(p.dcid, p.salt());
    assert forall|i: int| 0 <= i < 12 implies packet_nonce(iv, p.number())[i] == p.nonce()[i] by {
        lemma_masked_pn(iv[i], 0);
    }
    assert(packet_nonce(iv, p.number()) =~= p.nonce());
}

/// A client's packet is decrypted to what the client put in it, whatever the
/// lengths of its fields and of its packet number, and whatever follows it in the
/// datagram: if its payload opens, under the keys of its connection ID and with
/// the whole header authenticated, then what its frames carry is returned with
/// the fields of the header.
pub proof fn client_packet_is_decrypted(p: ClientPacket, plaintext: Seq<u8>, behind: Seq<u8>)
    requires
        p.fits(),
        initial_keys::aes128_gcm_open(
            initial_keys::client_key(p.dcid, p.salt()),
            p.nonce(),
            p.header() + p.pn,
            p.ciphertext,
        ) == Some(plaintext),
    ensures
        decrypted_initial(p.sent() + behind) == match crypto_frames::crypto_frames(plaintext) {
            Err(e) => Err::<Option<InitialView>, PacketError>(e),
            Ok(segments) => if segments.len() == 0 {
                Ok(None)
            } else {
                Ok(
                    Some(
                        InitialView {
                            header: HeaderView {
                                version: p.version,
                                dcid: p.dcid,
                                scid: p.scid,
                                token: p.token,
                                packet_number: p.number(),
                                salt: p.salt(),
                            },
                            segments,
                        },
                    ),
                )
            },
        },
{
    let packet = p.sent() + behind;
    let n = p.header().len() as int;
    lemma_client_packet_layout(p, behind);
    lemma_client_packet_header(p, behind);
    lemma_client_packet_nonce(p);
    let end = n + p.pn.len() + p.ciphertext.len();
    assert(p.sent().len() == end);
    assert(packet.subrange(n + 4, n + 20) =~= p.ciphertext.subrange(
        4 - p.pn.len(),
        20 - p.pn.len(),
    ));
    assert(packet.subrange(n + p.pn.len() as int, end) =~= p.ciphertext);
    reveal(opened_initial);
}

/// A client's packet whose payload does not open is refused.
pub proof fn client_packet_must_open(p: ClientPacket, behind: Seq<u8>)
    requires
        p.fits(),
        initial_keys::aes128_gcm_open(
            initial_keys::client_key(p.dcid, p.salt()),
            p.nonce(),
            p.header() + p.pn,
            p.ciphertext,
        ) is None,
    ensures
        decrypted_initial(p.sent() + behind) == Err::<Option<InitialView>, PacketError>(
            PacketError::AeadOpenFailed,
        ),
{
    let packet = p.sent() + behind;
    let n = p.header().len() as int;
    lemma_client_packet_layout(p, behind);
    lemma_client_packet_header(p, behind);
    lemma_client_packet_nonce(p);
    let end = n + p.pn.len() + p.ciphertext.len();
    assert(p.sent().len() == end);
    assert(packet.subrange(n + 4, n + 20) =~= p.ciphertext.subrange(
        4 - p.pn.len(),
        20 - p.pn.len(),
    ));
    assert(packet.subrange(n + p.pn.len() as int, end) =~= p.ciphertext);
    reveal(opened_initial);
}

/// Packets with a short header, of another version, or of another type than
/// Initial are not decrypted.
pub proof fn other_packets_are_not_initial(packet: Seq<u8>)
    requires
        packet.len() >= 6,
        ({
            let v1 = packet.subrange(1, 5) == seq![0u8, 0u8, 0u8, 1u8];
            let v2 = packet.subrange(1, 5) == seq![0x6bu8, 0x33u8, 0x43u8, 0xcfu8];
            ||| packet[0] < 0x80
            ||| !v1 && !v2
            ||| v1 && packet[0] / 16 % 4 != 0
            ||| v2 && packet[0] / 16 % 4 != 1
        }),
    ensures
        decrypted_initial(packet) == Ok::<Option<InitialView>, PacketError>(None),
{
    reveal(initial_layout);
    let v = packet.subrange(1, 5);
    assert(v[0] == packet[1] && v[1] == packet[2] && v[2] == packet[3] && v[3] == packet[4]);
    if version_field(packet) == 1 {
        assert(v =~= seq![0u8, 0u8, 0u8, 1u8]);
    }
    if version_field(packet) == 0x6b3343cf {
        assert(v =~= seq![0x6bu8, 0x33u8, 0x43u8, 0xcfu8]);
    }
}

/// What is sealed is a client's packet: the header fields as they are, the low 16
/// bits of the packet number, and under the payload one CRYPTO frame that starts
/// at offset 0 with the data, followed by padding. Key, nonce and mask are those
/// of the connection ID.
pub proof fn sealed_packet_is_a_client_packet(h: HeaderView, data: Seq<u8>, packet: Seq<u8>)
    requires
        h.dcid.len() < 256,
        h.scid.len() < 256,
        h.token.len() < 0x2000_0000_0000_0000,
        data.len() < 0x2000_0000_0000_0000,
        h.packet_number < 65536,
        initial_salt(h.version) == Some(h.salt),
        encrypted_initial(h, data) == Ok::<Seq<u8>, PacketError>(packet),
        packet.len() == sealed_size(h, data),
    ensures
        exists|p: ClientPacket, padding: nat| #[trigger] is_sealed_as(p, padding, h, data, packet),
{
    let ciphertext = sealed_ciphertext(h, data)->0;
    let p = ClientPacket {
        first: if h.version == 0x6b3343cf {
            0xd1
        } else {
            0xc1
        },
        version: h.version,
        dcid: h.dcid,
        scid: h.scid,
        token_length: varint::varint_bytes(h.token.len()),
        token: h.token,
        length: payload_len_bytes(h, data),
        pn: seq![(h.packet_number / 256) as u8, (h.packet_number % 256) as u8],
        ciphertext,
    };
    let padding = (sealed_payload_len(h, data) - (crypto_frame_bytes(data).len() + 18)) as nat;
    let n = sealed_header(h, data).len() as int;
    let mask = sealed_mask(h, ciphertext);
    assert(p.header() =~= sealed_header(h, data));
    assert(p.pn =~= wire::be16(h.packet_number as int));
    assert(p.number() == h.packet_number);
    assert(p.salt() == h.salt);
    lemma_client_packet_nonce(p);
    assert(p.header() + p.pn == sealed_full_header(h, data));
    assert(ciphertext.subrange(4 - p.pn.len(), 20 - p.pn.len()) == ciphertext.subrange(2, 18));
    assert(mask == p.mask());
    assert(packet =~= p.sent());
    assert(varint::varint_bytes(0) =~= seq![0u8]);
    assert(sealed_plaintext(h, data) =~= seq![6u8, 0u8] + varint::varint_bytes(data.len()) + data
        + wire::zeros(padding));
    lemma_payload_len_round_trip(Seq::empty(), h, data, Seq::empty());
    assert(Seq::<u8>::empty() + p.length + Seq::empty() =~= p.length);
    sealed_packet_is_padded(h, data);
    assert(is_sealed_as(p, padding, h, data, packet));
}

/// Whether `packet` is `p` as it is sent and has the size that a packet must have,
/// with the fields of `h`, and `data` sealed
/// in it in front of `padding` bytes of padding.
pub open spec fn is_sealed_as(
    p: ClientPacket,
    padding: nat,
    h: HeaderView,
    data: Seq<u8>,
    packet: Seq<u8>,
) -> bool {
    &&& packet == p.sent()
    &&& p.first == if h.version == 0x6b3343cf {
        0xd1u8
    } else {
        0xc1u8
    }
    &&& p.version == h.version
    &&& p.dcid == h.dcid
    &&& p.scid == h.scid
    &&& p.token_length == varint::varint_bytes(h.token.len())
    &&& p.token == h.token
    &&& p.pn == seq![(h.packet_number / 256) as u8, (h.packet_number % 256) as u8]
    &&& initial_keys::aes128_gcm_seal(
        initial_keys::client_key(h.dcid, h.salt),
        p.nonce(),
        p.header() + p.pn,
        seq![6u8, 0u8] + varint::varint_bytes(data.len()) + data + wire::zeros(padding),
    ) == Some(p.ciphertext)
    &&& varint::varint_at(p.length, 0) == Ok::<(nat, nat), PacketError>(
        (p.pn.len() + p.ciphertext.len(), p.length.len()),
    )
    &&& packet.len() >= 1200
    &&& padding > 0 ==> packet.len() == 1200
}

/// Data that AES-GCM can seal at all can be sealed under every header of less
/// than 2^60 bytes, and longer data cannot.
pub proof fn sealing_is_only_limited_by_the_cipher(h: HeaderView, data: Seq<u8>)
    requires
        h.dcid.len() + h.scid.len() + h.token.len() < 0x1000_0000_0000_0000,
        data.len() + 30 <= usize::MAX,
    ensures
        data.len() <= 0xf_ffff_ff00 ==> can_seal(h, data),
        data.len() > 0xf_ffff_ffe0 ==> !can_seal(h, data),
{
    assert(crypto_frame_bytes(data).len() == 2 + varint::varint_bytes(data.len()).len()
        + data.len()) by {
        assert(varint::varint_bytes(0).len() == 1);
    }
    assert(header_start(h).len() <= 7 + h.dcid.len() + h.scid.len() + 8 + h.token.len());
    assert(payload_len_bytes(h, data).len() <= 8);
}

/// How a packet with an Initial header of a known version is refused: where it
/// ends before a field does, where it announces more payload than there is, and
/// where the payload is too short to be sampled.
pub proof fn cut_packets_are_refused(packet: Seq<u8>)
    requires
        packet.len() >= 6,
        packet.subrange(1, 5) == seq![0u8, 0u8, 0u8, 1u8] && 0x80 <= packet[0] && packet[0] / 16
            % 4 == 0 || packet.subrange(1, 5) == seq![0x6bu8, 0x33u8, 0x43u8, 0xcfu8] && 0x80
            <= packet[0] && packet[0] / 16 % 4 == 1,
    ensures
        ({
            let len = packet.len() as int;
            let scid_at = 6 + packet[5] as int;
            let token_at = scid_at + 1 + packet[scid_at];
            let result = decrypted_initial(packet);
            if len < scid_at + 1 {
                result == Err::<Option<InitialView>, PacketError>(PacketError::TooShortForDcid)
            } else if len < token_at {
                result == Err::<Option<InitialView>, PacketError>(PacketError::TooShortForScid)
            } else {
                match varint::varint_at(packet, token_at) {
                    Err(e) => result == Err::<Option<InitialView>, PacketError>(e),
                    Ok((token_len, a)) => {
                        let end = token_at + a + token_len;
                        if len < end {
                            result == Err::<Option<InitialView>, PacketError>(
                                PacketError::TooShortForToken,
                            )
                        } else if len == end {
                            result == Err::<Option<InitialView>, PacketError>(
                                PacketError::TruncatedBeforePayloadLength,
                            )
                        } else {
                            match varint::varint_at(packet, end) {
                                Err(e) => result == Err::<Option<InitialView>, PacketError>(e),
                                Ok((n, b)) => if len < end + b + n {
                                    result == Err::<Option<InitialView>, PacketError>(
                                        PacketError::PayloadTooLong,
                                    )
                                } else {
                                    n < 20 ==> result == Err::<Option<InitialView>, PacketError>(
                                        PacketError::TooShortForSample,
                                    )
                                },
                            }
                        }
                    },
                }
            }
        }),
{
    reveal(initial_layout);
    let v = packet.subrange(1, 5);
    assert(v[0] == packet[1] && v[1] == packet[2] && v[2] == packet[3] && v[3] == packet[4]);
}

/// A packet of less than 6 bytes is refused.
pub proof fn shortest_packets_are_refused(packet: Seq<u8>)
    requires
        packet.len() < 6,
    ensures
        decrypted_initial(packet) == Err::<Option<InitialView>, PacketError>(PacketError::TooShort),
{
    reveal(initial_layout);
}

/// The salts that are known, and what a header view says of its version.
pub proof fn salts_belong_to_versions(version: u32)
    ensures
        initial_salt(version) == if version == 0x00000001 {
            Some(QUIC_V1_SALT@)
        } else if version == 0x6b3343cf {
            Some(QUIC_V2_SALT@)
        } else {
            None
        },
{
}

/// Which headers can be sealed under and read back.
pub proof fn encodable_headers(h: HeaderView)
    ensures
        is_encodable(h) <==> h.dcid.len() <= 255 && h.scid.len() <= 255 && h.packet_number <= 65535
            && (h.version == 0x00000001 && h.salt == QUIC_V1_SALT@ || h.version == 0x6b3343cf
            && h.salt == QUIC_V2_SALT@),
{
}

/// What a sealed packet gives back is the header and the data, as one segment at
/// the start of the stream.
pub proof fn sealed_data_is_one_segment(packet: Seq<u8>, h: HeaderView, data: Seq<u8>)
    requires
        gives_back(packet, h, data),
    ensures
        decrypted_initial(packet) matches Ok(Some(d)) && d.header == h && d.segments.len() == 1
            && d.segments[0].offset == 0 && d.segments[0].data == data,
{
}

} // verus!
