//! The ECH acceptance confirmation (RFC 9849, section 7.2).

use vstd::prelude::*;

use crate::initial_keys;
use crate::wire;

verus! {

/// `"ech accept confirmation"`.
pub const ECH_ACCEPT_CONFIRMATION: [u8; 23] = [
    0x65, 0x63, 0x68, 0x20, 0x61, 0x63, 0x63, 0x65, 0x70, 0x74, 0x20, 0x63, 0x6f, 0x6e, 0x66, 0x69,
    0x72, 0x6d, 0x61, 0x74, 0x69, 0x6f, 0x6e,
];

/// HKDF (RFC 5869) with the hash function of a cipher suite.
pub trait Hkdf {
    /// The `len` bytes that HKDF-Expand derives with `info` from what
    /// HKDF-Extract makes of `secret` without a salt.
    closed spec fn derived(&self, secret: Seq<u8>, info: Seq<u8>, len: nat) -> Seq<u8> {
        arbitrary()
    }

    /// Derives `len` bytes with `info` from `secret`, without a salt.
    fn extract_and_expand(&self, secret: &[u8], info: &[u8], len: usize) -> (okm: Vec<u8>)
        requires
            len <= 255,
        ensures
            okm@.len() == len,
            okm@ == self.derived(secret@, info@, len as nat),
    ;
}

/// HKDF with SHA-256.
#[derive(Debug, Clone, Copy)]
pub struct HkdfSha256;

impl Hkdf for HkdfSha256 {
    /// No salt is a salt of as many zeros as the hash is long.
    open spec fn derived(&self, secret: Seq<u8>, info: Seq<u8>, len: nat) -> Seq<u8> {
        initial_keys::hkdf_sha256(wire::zeros(32), secret, info, len)
    }

    fn extract_and_expand(&self, secret: &[u8], info: &[u8], len: usize) -> (okm: Vec<u8>) {
        let salt: [u8; 32] = [0; 32];
        assert(salt@ =~= wire::zeros(32));
        match initial_keys::hkdf_extract_and_expand(&salt, secret, info, len) {
            Ok(okm) => okm,
            Err(_) => vstd::pervasive::unreached(),
        }
    }
}

/// The confirmation that a server which accepted ECH puts at the end of its
/// random.
pub open spec fn confirmation<K: Hkdf>(
    hkdf: K,
    inner_random: Seq<u8>,
    transcript: Seq<u8>,
) -> Seq<u8> {
    hkdf.derived(
        inner_random,
        initial_keys::label_info(8, ECH_ACCEPT_CONFIRMATION@, transcript),
        8,
    )
}

/// Compute the ECH acceptance confirmation for the last 8 bytes of
/// ServerHello.random.
pub fn server_ech_confirmation<K: Hkdf>(
    hkdf_provider: &K,
    inner_random: &[u8; 32],
    transcript_ech_conf: &[u8],
) -> (c: [u8; 8])
    ensures
        c@ == confirmation(*hkdf_provider, inner_random@, transcript_ech_conf@),
{
    let info = initial_keys::hkdf_label(8, &ECH_ACCEPT_CONFIRMATION, transcript_ech_conf);
    let okm = hkdf_provider.extract_and_expand(inner_random, &info, 8);
    let c: [u8; 8] = [okm[0], okm[1], okm[2], okm[3], okm[4], okm[5], okm[6], okm[7]];
    assert(c@ =~= okm@);
    c
}

/// The confirmation comes from all of the inner random and of the transcript, under
/// the label `"tls13 ech accept confirmation"`.
pub proof fn confirmation_covers_random_and_transcript<K: Hkdf>(
    hkdf: K,
    inner_random: Seq<u8>,
    transcript: Seq<u8>,
)
    requires
        transcript.len() < 256,
    ensures
        confirmation(hkdf, inner_random, transcript) == hkdf.derived(
            inner_random,
            seq![
                0u8, 8u8, 29u8, 0x74u8, 0x6cu8, 0x73u8, 0x31u8, 0x33u8, 0x20u8, 0x65u8, 0x63u8,
                0x68u8, 0x20u8, 0x61u8, 0x63u8, 0x63u8, 0x65u8, 0x70u8, 0x74u8, 0x20u8, 0x63u8,
                0x6fu8, 0x6eu8, 0x66u8, 0x69u8, 0x72u8, 0x6du8, 0x61u8, 0x74u8, 0x69u8, 0x6fu8,
                0x6eu8, transcript.len() as u8,
            ] + transcript,
            8,
        ),
{
    assert(initial_keys::label_info(8, ECH_ACCEPT_CONFIRMATION@, transcript) =~= seq![
        0u8, 8u8, 29u8, 0x74u8, 0x6cu8, 0x73u8, 0x31u8, 0x33u8, 0x20u8, 0x65u8, 0x63u8, 0x68u8,
        0x20u8, 0x61u8, 0x63u8, 0x63u8, 0x65u8, 0x70u8, 0x74u8, 0x20u8, 0x63u8, 0x6fu8, 0x6eu8,
        0x66u8, 0x69u8, 0x72u8, 0x6du8, 0x61u8, 0x74u8, 0x69u8, 0x6fu8, 0x6eu8,
        transcript.len() as u8,
    ] + transcript);
}

/// Without a salt, HKDF-SHA256 extracts under 32 zero bytes.
pub proof fn no_salt_is_all_zero(secret: Seq<u8>, info: Seq<u8>, len: nat)
    ensures
        HkdfSha256.derived(secret, info, len) == initial_keys::hkdf_sha256(
            Seq::new(32, |i: int| 0u8),
            secret,
            info,
            len,
        ),
{
    assert(wire::zeros(32) =~= Seq::new(32, |i: int| 0u8));
}

} // verus!
