//! Initial packet protection (RFC 9001, section 5): the keys that a client's
//! Initial packets are protected with, and the three primitives that use them.
//!
//! HKDF and AES-128-GCM come from `ring`, the AES block cipher from `aes`.

use aes::cipher::generic_array::GenericArray;
use aes::cipher::{BlockEncrypt, KeyInit};
use aes::Aes128;
use ring::aead::{Aad, LessSafeKey, Nonce, UnboundKey, AES_128_GCM};
use ring::error::Unspecified;
use ring::hkdf;
use vstd::prelude::*;

use crate::error::PacketError;
use crate::wire;

verus! {

/// `ring`'s error, which says nothing but that an operation failed.
#[verifier::external_type_specification]
#[verifier::external_body]
pub struct ExUnspecified(Unspecified);

/// The `len` bytes that HKDF-SHA256 (RFC 5869) derives: HKDF-Extract of `ikm`
/// under `salt`, then HKDF-Expand with `info`.
pub uninterp spec fn hkdf_sha256(salt: Seq<u8>, ikm: Seq<u8>, info: Seq<u8>, len: nat) -> Seq<u8>;

/// The `len` bytes that HKDF-Expand with SHA-256 (RFC 5869) derives from the
/// pseudorandom key `prk` with `info`.
pub uninterp spec fn hkdf_expand_sha256(prk: Seq<u8>, info: Seq<u8>, len: nat) -> Seq<u8>;

/// The block that AES-128 makes of `block` under `key`.
pub uninterp spec fn aes128_block(key: Seq<u8>, block: Seq<u8>) -> Seq<u8>;

/// The ciphertext, its 16-byte tag at the end, that AES-128-GCM makes of
/// `plaintext`, or nothing if the plaintext is too long to be sealed.
pub uninterp spec fn aes128_gcm_seal(
    key: Seq<u8>,
    nonce: Seq<u8>,
    aad: Seq<u8>,
    plaintext: Seq<u8>,
) -> Option<Seq<u8>>;

/// The plaintext under `ciphertext`, whose last 16 bytes are the tag, or
/// nothing if the tag does not fit.
pub uninterp spec fn aes128_gcm_open(
    key: Seq<u8>,
    nonce: Seq<u8>,
    aad: Seq<u8>,
    ciphertext: Seq<u8>,
) -> Option<Seq<u8>>;

/// The longest plaintext that AES-GCM seals under one nonce.
pub const MAX_GCM_PLAINTEXT: u64 = 0xf_ffff_ffe0;

/// The longest additional data that AES-GCM takes: its length in bits is a
/// 64-bit number.
pub const MAX_GCM_AAD: u64 = 0x1fff_ffff_ffff_ffff;

/// The length of output that an expansion is asked for.
pub struct ArbitraryOutputLen(pub usize);

impl hkdf::KeyType for ArbitraryOutputLen {
    fn len(&self) -> (n: usize)
        ensures
            n == self.0,
    {
        self.0
    }
}

/// `ring::hkdf::Salt::extract`, then `Prk::expand` and `Okm::fill` on what it
/// yields, with SHA-256. They fail if and only if more than 255 blocks of
/// output are asked for; otherwise they give `len` bytes that depend on the
/// arguments alone.
#[verifier::external_body]
pub(crate) fn hkdf_extract_and_expand(salt: &[u8], ikm: &[u8], info: &[u8], len: usize) -> (r: Result<
    Vec<u8>,
    Unspecified,
>)
    ensures
        r is Ok <==> len <= 8160,
        r matches Ok(okm) ==> okm@.len() == len && okm@ == hkdf_sha256(
            salt@,
            ikm@,
            info@,
            len as nat,
        ),
{
    let prk = hkdf::Salt::new(hkdf::HKDF_SHA256, salt).extract(ikm);
    let mut okm = vec![0u8; len];
    prk.expand(&[info], ArbitraryOutputLen(len))?.fill(&mut okm)?;
    Ok(okm)
}

/// `ring::hkdf::Prk::expand` and `Okm::fill` with SHA-256, on the pseudorandom
/// key `prk`. They fail if and only if more than 255 blocks of output are asked
/// for; otherwise they give `len` bytes that depend on the arguments alone.
#[verifier::external_body]
fn hkdf_expand(prk: &[u8], info: &[u8], len: usize) -> (r: Result<Vec<u8>, Unspecified>)
    ensures
        r is Ok <==> len <= 8160,
        r matches Ok(okm) ==> okm@.len() == len && okm@ == hkdf_expand_sha256(
            prk@,
            info@,
            len as nat,
        ),
{
    let prk = hkdf::Prk::new_less_safe(hkdf::HKDF_SHA256, prk);
    let mut okm = vec![0u8; len];
    prk.expand(&[info], ArbitraryOutputLen(len))?.fill(&mut okm)?;
    Ok(okm)
}

/// `aes::Aes128::encrypt_block`: one block of AES-128, a function of the key
/// and the block.
#[verifier::external_body]
fn aes128_encrypt_block(key: &[u8; 16], block: &[u8; 16]) -> (r: [u8; 16])
    ensures
        r@ == aes128_block(key@, block@),
{
    let cipher = Aes128::new(GenericArray::from_slice(key));
    let mut out = GenericArray::clone_from_slice(block);
    cipher.encrypt_block(&mut out);
    out.into()
}

/// `ring::aead::LessSafeKey::seal_in_place_append_tag` with AES-128-GCM. It
/// fails if and only if the plaintext is longer than AES-GCM allows, or the
/// additional data has more bits than a 64-bit number can count. The ciphertext is the plaintext's length and a 16-byte tag, and the same key,
/// nonce and additional data open it again.
#[verifier::external_body]
pub(crate) fn gcm_seal(key: &[u8; 16], nonce: &[u8; 12], aad: &[u8], plaintext: &[u8]) -> (r: Result<
    Vec<u8>,
    Unspecified,
>)
    ensures
        r is Ok <==> (plaintext@.len() <= MAX_GCM_PLAINTEXT && aad@.len() <= MAX_GCM_AAD),
        r is Ok <==> aes128_gcm_seal(key@, nonce@, aad@, plaintext@) is Some,
        r matches Ok(c) ==> {
            &&& aes128_gcm_seal(key@, nonce@, aad@, plaintext@) == Some(c@)
            &&& c@.len() == plaintext@.len() + 16
            &&& aes128_gcm_open(key@, nonce@, aad@, c@) == Some(plaintext@)
        },
{
    let key = LessSafeKey::new(UnboundKey::new(&AES_128_GCM, key)?);
    let mut in_out = plaintext.to_vec();
    key.seal_in_place_append_tag(Nonce::assume_unique_for_key(*nonce), Aad::from(aad), &mut in_out)?;
    Ok(in_out)
}

/// `ring::aead::LessSafeKey::open_in_place` with AES-128-GCM: the plaintext if
/// the tag fits the key, nonce and additional data, a function of the
/// arguments.
#[verifier::external_body]
pub(crate) fn gcm_open(key: &[u8; 16], nonce: &[u8; 12], aad: &[u8], ciphertext: &[u8]) -> (r: Result<
    Vec<u8>,
    Unspecified,
>)
    ensures
        r is Ok <==> aes128_gcm_open(key@, nonce@, aad@, ciphertext@) is Some,
        r matches Ok(p) ==> aes128_gcm_open(key@, nonce@, aad@, ciphertext@) == Some(p@),
{
    let key = LessSafeKey::new(UnboundKey::new(&AES_128_GCM, key)?);
    let mut in_out = ciphertext.to_vec();
    let plaintext =
        key.open_in_place(Nonce::assume_unique_for_key(*nonce), Aad::from(aad), &mut in_out)?;
    Ok(plaintext.to_vec())
}

/// `"tls13 "`.
pub const LABEL_PREFIX: [u8; 6] = [0x74, 0x6c, 0x73, 0x31, 0x33, 0x20];

/// `"client in"`.
pub const CLIENT_IN: [u8; 9] = [0x63, 0x6c, 0x69, 0x65, 0x6e, 0x74, 0x20, 0x69, 0x6e];

/// `"quic key"`.
pub const QUIC_KEY: [u8; 8] = [0x71, 0x75, 0x69, 0x63, 0x20, 0x6b, 0x65, 0x79];

/// `"quic iv"`.
pub const QUIC_IV: [u8; 7] = [0x71, 0x75, 0x69, 0x63, 0x20, 0x69, 0x76];

/// `"quic hp"`.
pub const QUIC_HP: [u8; 7] = [0x71, 0x75, 0x69, 0x63, 0x20, 0x68, 0x70];

/// The `HkdfLabel` of TLS 1.3 (RFC 8446, section 7.1): the output length, the
/// label behind `"tls13 "`, and the context.
pub open spec fn label_info(length: int, label: Seq<u8>, context: Seq<u8>) -> Seq<u8> {
    wire::be16(length) + wire::vec8(LABEL_PREFIX@ + label) + wire::vec8(context)
}

/// Builds a `HkdfLabel`.
pub fn hkdf_label(length: usize, label: &[u8], context: &[u8]) -> (info: Vec<u8>)
    ensures
        info@ == label_info(length as int, label@, context@),
{
    let mut full: Vec<u8> = Vec::new();
    wire::put_bytes(&mut full, &LABEL_PREFIX);
    wire::put_bytes(&mut full, label);
    let mut info: Vec<u8> = Vec::new();
    wire::put_u16(&mut info, length);
    wire::put_vec8(&mut info, &full);
    wire::put_vec8(&mut info, context);
    assert(full@ =~= LABEL_PREFIX@ + label@);
    assert(info@ =~= label_info(length as int, label@, context@));
    info
}

/// HKDF-Expand-Label with an empty context.
pub open spec fn expand_label(secret: Seq<u8>, label: Seq<u8>, length: nat) -> Seq<u8> {
    hkdf_expand_sha256(secret, label_info(length as int, label, Seq::empty()), length)
}

/// Derives `length` bytes from the secret `prk` under `label`. Lengths of more
/// than 255 blocks of output are refused.
pub fn hkdf_expand_label(prk: &[u8], label: &[u8], length: usize) -> (r: Result<
    Vec<u8>,
    PacketError,
>)
    ensures
        match r {
            Ok(okm) => length <= 8160 && okm@.len() == length && okm@ == expand_label(
                prk@,
                label@,
                length as nat,
            ),
            Err(e) => length > 8160 && e == PacketError::KeyDerivationFailed,
        },
{
    let info = hkdf_label(length, label, &[]);
    assert(Seq::<u8>::empty() =~= <[u8; 0] as View>::view(&[]));
    match hkdf_expand(prk, &info, length) {
        Ok(okm) => Ok(okm),
        Err(_) => Err(PacketError::KeyDerivationFailed),
    }
}

/// The client's Initial secret for a connection whose first packets go to `dcid`.
pub open spec fn client_initial_secret(dcid: Seq<u8>, salt: Seq<u8>) -> Seq<u8> {
    hkdf_sha256(salt, dcid, label_info(32, CLIENT_IN@, Seq::empty()), 32)
}

/// The key that the client's Initial packets are sealed with.
pub open spec fn client_key(dcid: Seq<u8>, salt: Seq<u8>) -> Seq<u8> {
    expand_label(client_initial_secret(dcid, salt), QUIC_KEY@, 16)
}

/// The value that nonces of the client's Initial packets are made from.
pub open spec fn client_iv(dcid: Seq<u8>, salt: Seq<u8>) -> Seq<u8> {
    expand_label(client_initial_secret(dcid, salt), QUIC_IV@, 12)
}

/// The key that the headers of the client's Initial packets are masked with.
pub open spec fn client_hp_key(dcid: Seq<u8>, salt: Seq<u8>) -> Seq<u8> {
    expand_label(client_initial_secret(dcid, salt), QUIC_HP@, 16)
}

fn to_array_16(bytes: &[u8]) -> (a: [u8; 16])
    requires
        bytes@.len() == 16,
    ensures
        a@ == bytes@,
{
    let mut a: [u8; 16] = [0; 16];
    let mut i: usize = 0;
    while i < 16
        invariant
            bytes@.len() == 16,
            0 <= i <= 16,
            forall|j: int| 0 <= j < i ==> a@[j] == bytes@[j],
        decreases 16 - i,
    {
        a[i] = bytes[i];
        i = i + 1;
    }
    assert(a@ =~= bytes@);
    a
}

fn to_array_12(bytes: &[u8]) -> (a: [u8; 12])
    requires
        bytes@.len() == 12,
    ensures
        a@ == bytes@,
{
    let mut a: [u8; 12] = [0; 12];
    let mut i: usize = 0;
    while i < 12
        invariant
            bytes@.len() == 12,
            0 <= i <= 12,
            forall|j: int| 0 <= j < i ==> a@[j] == bytes@[j],
        decreases 12 - i,
    {
        a[i] = bytes[i];
        i = i + 1;
    }
    assert(a@ =~= bytes@);
    a
}

/// Derives the sealing key, the nonce base and the header protection key of a
/// client's Initial packets from the destination connection ID and the salt of
/// the QUIC version.
pub fn derive_client_initial_keys(dcid: &[u8], salt: &[u8]) -> (r: Result<
    ([u8; 16], [u8; 12], [u8; 16]),
    PacketError,
>)
    ensures
        r matches Ok((key, iv, hp)) && key@ == client_key(dcid@, salt@) && iv@ == client_iv(
            dcid@,
            salt@,
        ) && hp@ == client_hp_key(dcid@, salt@),
{
    let info = hkdf_label(32, &CLIENT_IN, &[]);
    assert(Seq::<u8>::empty() =~= <[u8; 0] as View>::view(&[]));
    let secret = match hkdf_extract_and_expand(salt, dcid, &info, 32) {
        Ok(secret) => secret,
        Err(_) => return Err(PacketError::KeyDerivationFailed),
    };
    let key = hkdf_expand_label(&secret, &QUIC_KEY, 16)?;
    let iv = hkdf_expand_label(&secret, &QUIC_IV, 12)?;
    let hp = hkdf_expand_label(&secret, &QUIC_HP, 16)?;
    Ok((to_array_16(&key), to_array_12(&iv), to_array_16(&hp)))
}

/// The header protection mask for a sample of the ciphertext.
pub open spec fn hp_mask(hp_key: Seq<u8>, sample: Seq<u8>) -> Seq<u8> {
    aes128_block(hp_key, sample).take(5)
}

/// Computes the header protection mask from the first 16 bytes of `sample`.
pub fn compute_hp_mask(hp_key: &[u8; 16], sample: &[u8]) -> (r: Result<[u8; 5], PacketError>)
    requires
        sample@.len() >= 16,
    ensures
        r matches Ok(mask) && mask@ == hp_mask(hp_key@, sample@.take(16)),
{
    let block = to_array_16(&sample[0..16]);
    assert(block@ =~= sample@.take(16));
    let out = aes128_encrypt_block(hp_key, &block);
    let mask: [u8; 5] = [out[0], out[1], out[2], out[3], out[4]];
    assert(mask@ =~= out@.take(5));
    Ok(mask)
}

/// How a `HkdfLabel` is laid out.
pub proof fn labels_are_laid_out(length: int, label: Seq<u8>, context: Seq<u8>)
    requires
        0 <= length < 65536,
        label.len() < 250,
        context.len() < 256,
    ensures
        label_info(length, label, context) == seq![
            (length / 256) as u8,
            (length % 256) as u8,
            (6 + label.len()) as u8,
            0x74u8,
            0x6cu8,
            0x73u8,
            0x31u8,
            0x33u8,
            0x20u8,
        ] + label + seq![context.len() as u8] + context,
{
    assert(label_info(length, label, context) =~= seq![
        (length / 256) as u8,
        (length % 256) as u8,
        (6 + label.len()) as u8,
        0x74u8,
        0x6cu8,
        0x73u8,
        0x31u8,
        0x33u8,
        0x20u8,
    ] + label + seq![context.len() as u8] + context);
}

/// The keys of a connection come from all of the destination connection ID,
/// whatever its length: HKDF-Extract of it under the version's salt, HKDF-Expand
/// of that under the label `"tls13 client in"`, and of what comes out under
/// `"tls13 quic key"`, `"tls13 quic iv"` and `"tls13 quic hp"`.
pub proof fn keys_come_from_the_whole_connection_id(dcid: Seq<u8>, salt: Seq<u8>)
    ensures
        ({
            let secret = hkdf_sha256(
                salt,
                dcid,
                seq![
                    0u8, 32u8, 15u8, 0x74u8, 0x6cu8, 0x73u8, 0x31u8, 0x33u8, 0x20u8, 0x63u8,
                    0x6cu8, 0x69u8, 0x65u8, 0x6eu8, 0x74u8, 0x20u8, 0x69u8, 0x6eu8, 0u8,
                ],
                32,
            );
            &&& client_key(dcid, salt) == hkdf_expand_sha256(
                secret,
                seq![
                    0u8, 16u8, 14u8, 0x74u8, 0x6cu8, 0x73u8, 0x31u8, 0x33u8, 0x20u8, 0x71u8,
                    0x75u8, 0x69u8, 0x63u8, 0x20u8, 0x6bu8, 0x65u8, 0x79u8, 0u8,
                ],
                16,
            )
            &&& client_iv(dcid, salt) == hkdf_expand_sha256(
                secret,
                seq![
                    0u8, 12u8, 13u8, 0x74u8, 0x6cu8, 0x73u8, 0x31u8, 0x33u8, 0x20u8, 0x71u8,
                    0x75u8, 0x69u8, 0x63u8, 0x20u8, 0x69u8, 0x76u8, 0u8,
                ],
                12,
            )
            &&& client_hp_key(dcid, salt) == hkdf_expand_sha256(
                secret,
                seq![
                    0u8, 16u8, 13u8, 0x74u8, 0x6cu8, 0x73u8, 0x31u8, 0x33u8, 0x20u8, 0x71u8,
                    0x75u8, 0x69u8, 0x63u8, 0x20u8, 0x68u8, 0x70u8, 0u8,
                ],
                16,
            )
        }),
{
    assert(label_info(32, CLIENT_IN@, Seq::empty()) =~= seq![
        0u8, 32u8, 15u8, 0x74u8, 0x6cu8, 0x73u8, 0x31u8, 0x33u8, 0x20u8, 0x63u8, 0x6cu8, 0x69u8,
        0x65u8, 0x6eu8, 0x74u8, 0x20u8, 0x69u8, 0x6eu8, 0u8,
    ]);
    assert(label_info(16, QUIC_KEY@, Seq::empty()) =~= seq![
        0u8, 16u8, 14u8, 0x74u8, 0x6cu8, 0x73u8, 0x31u8, 0x33u8, 0x20u8, 0x71u8, 0x75u8, 0x69u8,
        0x63u8, 0x20u8, 0x6bu8, 0x65u8, 0x79u8, 0u8,
    ]);
    assert(label_info(12, QUIC_IV@, Seq::empty()) =~= seq![
        0u8, 12u8, 13u8, 0x74u8, 0x6cu8, 0x73u8, 0x31u8, 0x33u8, 0x20u8, 0x71u8, 0x75u8, 0x69u8,
        0x63u8, 0x20u8, 0x69u8, 0x76u8, 0u8,
    ]);
    assert(label_info(16, QUIC_HP@, Seq::empty()) =~= seq![
        0u8, 16u8, 13u8, 0x74u8, 0x6cu8, 0x73u8, 0x31u8, 0x33u8, 0x20u8, 0x71u8, 0x75u8, 0x69u8,
        0x63u8, 0x20u8, 0x68u8, 0x70u8, 0u8,
    ]);
}

/// Every derived secret is HKDF-Expand of the secret that it comes from, with the
/// label and the length that were asked for; a mask is the start of one block.
pub proof fn derivations_use_all_of_their_inputs(
    secret: Seq<u8>,
    label: Seq<u8>,
    length: nat,
    hp_key: Seq<u8>,
    sample: Seq<u8>,
)
    ensures
        expand_label(secret, label, length) == hkdf_expand_sha256(
            secret,
            label_info(length as int, label, Seq::empty()),
            length,
        ),
        hp_mask(hp_key, sample) == aes128_block(hp_key, sample).take(5),
{
}

} // verus!
