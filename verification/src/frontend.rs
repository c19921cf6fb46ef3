//! Split-mode frontend: decrypts ECH from the ClientHellos that pass through,
//! and forwards everything else as it is.

use std::sync::Arc;

use vstd::prelude::*;

use crate::ech;
use crate::ech::EchDecryptResult;
use crate::ech_config;
use crate::ech_key;
use crate::ech_key::EchServerKey;
use crate::error::{Error, PeerMisbehaved};
use crate::extensions;
use crate::hello;
use crate::hello::{ClientHelloPayload, EncryptedClientHello};
use crate::hpke;
use crate::hpke::{Hpke, HpkeOpener, HpkeSymmetricCipherSuite};
use crate::inner_hello;
use crate::message::{CLIENT_HELLO, HANDSHAKE};
use crate::outer_aad;
use crate::wire;

verus! {

/// TLS record header length: content_type(1) + version(2) + length(2).
pub const TLS_RECORD_HEADER_LEN: usize = 5;

/// Whether a record is a handshake record that starts with a ClientHello.
pub open spec fn holds_client_hello(record: Seq<u8>) -> bool {
    record.len() > TLS_RECORD_HEADER_LEN && record[0] == HANDSHAKE
        && record[TLS_RECORD_HEADER_LEN as int] == CLIENT_HELLO
}

/// The version and payload of the handshake record that `record` starts with.
pub open spec fn parsed_record(record: Seq<u8>) -> Result<(u16, Seq<u8>), crate::error::ErrorView> {
    if record.len() < TLS_RECORD_HEADER_LEN {
        Err(crate::error::ErrorView::General("TLS record too short"@))
    } else if record[0] != HANDSHAKE {
        Err(crate::error::ErrorView::General("not a Handshake TLS record"@))
    } else {
        match wire::take_vec16(record.skip(3)) {
            None => Err(crate::error::ErrorView::General("TLS record truncated"@)),
            Some((payload, _)) => Ok(((record[1] * 256 + record[2]) as u16, payload)),
        }
    }
}

/// The record that carries a handshake message.
pub open spec fn record_of(version: u16, handshake_message: Seq<u8>) -> Seq<u8> {
    seq![HANDSHAKE] + wire::be16(version as int) + wire::vec16(handshake_message)
}

/// The ClientHello in a handshake message. Its length field is not looked at.
pub open spec fn parsed_client_hello(handshake_message: Seq<u8>) -> Result<
    hello::HelloView,
    crate::error::ErrorView,
> {
    if handshake_message.len() >= 1 && handshake_message[0] != CLIENT_HELLO {
        Err(crate::error::ErrorView::General("not a ClientHello handshake message"@))
    } else if handshake_message.len() < 4 {
        Err(
            crate::error::ErrorView::PeerMisbehaved(PeerMisbehaved::InvalidEchClientHelloInner),
        )
    } else {
        match hello::parsed_hello(handshake_message.skip(4)) {
            None => Err(
                crate::error::ErrorView::PeerMisbehaved(
                    PeerMisbehaved::InvalidEchClientHelloInner,
                ),
            ),
            Some(h) => Ok(h),
        }
    }
}

/// Check if a TLS record is a Handshake record containing a ClientHello.
pub fn is_client_hello_record(record: &[u8]) -> (b: bool)
    ensures
        b == holds_client_hello(record@),
{
    record.len() > TLS_RECORD_HEADER_LEN && record[0] == HANDSHAKE
        && record[TLS_RECORD_HEADER_LEN] == CLIENT_HELLO
}

/// Parse a TLS record, returning (version, payload).
pub fn parse_tls_record(record: &[u8]) -> (r: Result<(u16, &[u8]), Error>)
    ensures
        match r {
            Ok((version, payload)) => parsed_record(record@) == Ok::<
                (u16, Seq<u8>),
                crate::error::ErrorView,
            >((version, payload@)),
            Err(e) => parsed_record(record@) == Err::<(u16, Seq<u8>), crate::error::ErrorView>(e@),
        },
{
    if record.len() < TLS_RECORD_HEADER_LEN {
        return Err(Error::General("TLS record too short".to_string()));
    }
    if record[0] != HANDSHAKE {
        return Err(Error::General("not a Handshake TLS record".to_string()));
    }
    let version = record[1] as u16 * 256 + record[2] as u16;
    let body = &record[3..record.len()];
    assert(body@ =~= record@.skip(3));
    let mut reader = wire::Reader::new(body);
    match reader.vec16() {
        Some(payload) => Ok((version, payload)),
        None => Err(Error::General("TLS record truncated".to_string())),
    }
}

/// Wrap a handshake message in a TLS record.
pub fn wrap_handshake_in_record(version: u16, handshake_message: &[u8]) -> (record: Vec<u8>)
    ensures
        record@ == record_of(version, handshake_message@),
{
    let mut record: Vec<u8> = Vec::new();
    record.push(HANDSHAKE);
    wire::put_u16(&mut record, version as usize);
    wire::put_vec16(&mut record, handshake_message);
    assert(record@ =~= record_of(version, handshake_message@));
    record
}

/// Parse a ClientHello from raw handshake message bytes.
///
/// `handshake_message` is `HandshakeType(1) || length(3) || ClientHello body`.
pub fn parse_client_hello(handshake_message: &[u8]) -> (r: Result<ClientHelloPayload, Error>)
    ensures
        match r {
            Ok(h) => parsed_client_hello(handshake_message@) == Ok::<
                hello::HelloView,
                crate::error::ErrorView,
            >(h@),
            Err(e) => parsed_client_hello(handshake_message@) == Err::<
                hello::HelloView,
                crate::error::ErrorView,
            >(e@),
        },
{
    let mut reader = wire::Reader::new(handshake_message);
    let hs_type: u8 = match reader.u8() {
        Some(typ) => typ,
        None => return Err(Error::PeerMisbehaved(PeerMisbehaved::InvalidEchClientHelloInner)),
    };
    if hs_type != CLIENT_HELLO {
        return Err(Error::General("not a ClientHello handshake message".to_string()));
    }
    if inner_hello::u24_read(&mut reader).is_none() {
        return Err(Error::PeerMisbehaved(PeerMisbehaved::InvalidEchClientHelloInner));
    }
    assert(reader@ =~= handshake_message@.skip(4));
    match ClientHelloPayload::read(&mut reader) {
        Some(h) => Ok(h),
        None => Err(Error::PeerMisbehaved(PeerMisbehaved::InvalidEchClientHelloInner)),
    }
}

/// Reading a record gives back the version and the message that it was made of.
pub proof fn record_round_trip(version: u16, handshake_message: Seq<u8>)
    requires
        handshake_message.len() < 65536,
    ensures
        parsed_record(record_of(version, handshake_message)) == Ok::<
            (u16, Seq<u8>),
            crate::error::ErrorView,
        >((version, handshake_message)),
{
    let record = record_of(version, handshake_message);
    assert(record.skip(3) =~= wire::vec16(handshake_message) + Seq::empty());
    wire::lemma_take_vec16(handshake_message, Seq::empty());
}

/// The value of an [`EchFrontend`].
#[verifier::ext_equal]
pub struct FrontendView {
    pub context: hpke::OpenerView,
    pub config_id: u8,
    pub cipher_suite: HpkeSymmetricCipherSuite,
}

/// What becomes of a first ClientHello.
pub enum FrontendResultView {
    Decrypted(Seq<u8>, FrontendView),
    Rejected(Seq<u8>),
    NotOffered,
}

/// What becomes of a first ClientHello, given what became of its offer.
pub open spec fn frontend_result(
    outer: hello::HelloView,
    result: ech::DecryptView,
    retry_configs: Seq<ech_config::ConfigView>,
) -> Result<FrontendResultView, crate::error::ErrorView> {
    match result {
        ech::DecryptView::Accepted { hello, raw, context } => {
            let ext = outer.extensions.encrypted_client_hello->0->Outer_0;
            Ok(
                FrontendResultView::Decrypted(
                    inner_hello::hello_message(raw),
                    FrontendView {
                        context,
                        config_id: ext.config_id,
                        cipher_suite: ext.cipher_suite,
                    },
                ),
            )
        },
        ech::DecryptView::Fatal(e) => Err(e),
        ech::DecryptView::Rejected => Ok(
            FrontendResultView::Rejected(ech_config::config_list_bytes(retry_configs)),
        ),
        ech::DecryptView::NotOffered => Ok(FrontendResultView::NotOffered),
        ech::DecryptView::InnerDirect => Err(
            crate::error::ErrorView::PeerMisbehaved(PeerMisbehaved::InvalidEchClientHelloInner),
        ),
    }
}

/// What becomes of a first ClientHello. One that does not offer ECH need not
/// have any extensions at all.
#[verifier::opaque]
pub open spec fn first_message<H: Hpke>(
    handshake_message: Seq<u8>,
    keys: Seq<EchServerKey<H>>,
) -> Result<FrontendResultView, crate::error::ErrorView> {
    match parsed_client_hello(handshake_message) {
        Err(e) => Err(e),
        Ok(outer) => if outer.extensions.encrypted_client_hello is None {
            Ok(FrontendResultView::NotOffered)
        } else {
            match inner_hello::message_extensions(handshake_message) {
                None => Err(
                    crate::error::ErrorView::PeerMisbehaved(
                        PeerMisbehaved::InvalidEchClientHelloInner,
                    ),
                ),
                Some(extensions) => frontend_result(
                    outer,
                    ech::decrypted(outer, handshake_message, extensions, keys),
                    ech_key::retry_configs_of(keys),
                ),
            }
        },
    }
}

/// What becomes of a first ClientHello in a record. What it is decrypted to
/// goes in a record of the same version.
pub open spec fn first_record<H: Hpke>(record: Seq<u8>, keys: Seq<EchServerKey<H>>) -> Result<
    FrontendResultView,
    crate::error::ErrorView,
> {
    match parsed_record(record) {
        Err(e) => Err(e),
        Ok((version, handshake_message)) => match first_message(handshake_message, keys) {
            Ok(FrontendResultView::Decrypted(inner, frontend)) => Ok(
                FrontendResultView::Decrypted(record_of(version, inner), frontend),
            ),
            other => other,
        },
    }
}

/// What a second ClientHello is decrypted to, and the state afterwards.
#[verifier::opaque]
pub open spec fn second_message<O: HpkeOpener>(
    frontend: FrontendView,
    handshake_message: Seq<u8>,
) -> (Result<Seq<u8>, crate::error::ErrorView>, FrontendView) {
    match parsed_client_hello(handshake_message) {
        Err(e) => (Err(e), frontend),
        Ok(outer) => match inner_hello::message_extensions(handshake_message) {
            None => (
                Err(
                    crate::error::ErrorView::PeerMisbehaved(
                        PeerMisbehaved::InvalidEchClientHelloInner,
                    ),
                ),
                frontend,
            ),
            Some(extensions) => (
                match ech::hrr_decrypted::<O>(
                    frontend.context,
                    outer,
                    handshake_message,
                    extensions,
                    Some(frontend.config_id),
                    Some(frontend.cipher_suite),
                ) {
                    Err(e) => Err(crate::error::ErrorView::PeerMisbehaved(e)),
                    Ok((_, raw)) => Ok(inner_hello::hello_message(raw)),
                },
                FrontendView {
                    context: ech::hrr_context(
                        frontend.context,
                        outer,
                        handshake_message,
                        Some(frontend.config_id),
                        Some(frontend.cipher_suite),
                    ),
                    ..frontend
                },
            ),
        },
    }
}

/// What a second ClientHello in a record is decrypted to, and the state afterwards.
pub open spec fn second_record<O: HpkeOpener>(frontend: FrontendView, record: Seq<u8>) -> (
    Result<Seq<u8>, crate::error::ErrorView>,
    FrontendView,
) {
    match parsed_record(record) {
        Err(e) => (Err(e), frontend),
        Ok((version, handshake_message)) => {
            let (r, after) = second_message::<O>(frontend, handshake_message);
            (
                match r {
                    Err(e) => Err(e),
                    Ok(inner) => Ok(record_of(version, inner)),
                },
                after,
            )
        },
    }
}

/// Low-level HPKE state from decrypting a ClientHello, needed to handle
/// a potential second ClientHello after HelloRetryRequest.
///
/// Most callers should use [`EchProxy`] instead.
pub struct EchFrontend<O> {
    pub opener: O,
    pub config_id: u8,
    pub cipher_suite: HpkeSymmetricCipherSuite,
}

impl<O: HpkeOpener> View for EchFrontend<O> {
    type V = FrontendView;

    open spec fn view(&self) -> FrontendView {
        FrontendView {
            context: self.opener.context(),
            config_id: self.config_id,
            cipher_suite: self.cipher_suite,
        }
    }
}

/// Result of decrypting ECH from a ClientHello in the split-mode frontend.
pub enum EchFrontendResult<O> {
    /// ECH was successfully decrypted. The `Vec<u8>` contains the inner
    /// ClientHello as a handshake message (`type || length || body`).
    Decrypted(Vec<u8>, EchFrontend<O>),
    /// ECH decryption failed (config mismatch, wrong key, etc).
    /// The `Vec<u8>` contains the serialized retry_configs.
    Rejected(Vec<u8>),
    /// No ECH extension present.
    NotOffered,
}

impl<O: HpkeOpener> View for EchFrontendResult<O> {
    type V = FrontendResultView;

    open spec fn view(&self) -> FrontendResultView {
        match self {
            EchFrontendResult::Decrypted(inner, frontend) => FrontendResultView::Decrypted(
                inner@,
                frontend@,
            ),
            EchFrontendResult::Rejected(retry_configs) => FrontendResultView::Rejected(
                retry_configs@,
            ),
            EchFrontendResult::NotOffered => FrontendResultView::NotOffered,
        }
    }
}

impl<O: HpkeOpener> EchFrontend<O> {
    /// Core ECH decryption on raw handshake message bytes (no TLS record framing).
    pub fn decrypt_handshake_msg<H: Hpke<Opener = O>>(
        handshake_message: &[u8],
        ech_keys: &[EchServerKey<H>],
    ) -> (r: Result<EchFrontendResult<O>, Error>)
        ensures
            match r {
                Ok(result) => first_message(handshake_message@, ech_keys@) == Ok::<
                    FrontendResultView,
                    crate::error::ErrorView,
                >(result@),
                Err(e) => first_message(handshake_message@, ech_keys@) == Err::<
                    FrontendResultView,
                    crate::error::ErrorView,
                >(e@),
            },
    {
        reveal(first_message);
        let outer_hello = parse_client_hello(handshake_message)?;
        if outer_hello.extensions.encrypted_client_hello.is_none() {
            return Ok(EchFrontendResult::NotOffered);
        }
        let outer_extensions_raw = inner_hello::extract_extensions_from_client_hello(
            handshake_message,
        )?;

        let result = ech::decrypt_ech(
            &outer_hello,
            handshake_message,
            outer_extensions_raw,
            ech_keys,
        );
        let retry_configs = ech_key::collect_retry_configs(ech_keys);

        match result {
            EchDecryptResult::Accepted { inner_hello, inner_hello_raw, opener } => {
                let ech_ext = match &outer_hello.extensions.encrypted_client_hello {
                    Some(EncryptedClientHello::Outer(o)) => o,
                    _ => vstd::pervasive::unreached(),
                };
                let inner_msg = inner_hello::encode_inner_hello(&inner_hello_raw);
                let frontend = EchFrontend {
                    opener,
                    config_id: ech_ext.config_id,
                    cipher_suite: ech_ext.cipher_suite,
                };
                Ok(EchFrontendResult::Decrypted(inner_msg, frontend))
            },
            EchDecryptResult::Fatal(e) => Err(e),
            EchDecryptResult::Rejected => {
                let mut retry_bytes: Vec<u8> = Vec::new();
                ech_config::put_config_list(&mut retry_bytes, &retry_configs);
                assert(retry_bytes@ =~= ech_config::config_list_bytes(
                    ech_key::retry_configs_of(ech_keys@),
                ));
                Ok(EchFrontendResult::Rejected(retry_bytes))
            },
            EchDecryptResult::NotOffered => Ok(EchFrontendResult::NotOffered),
            EchDecryptResult::InnerDirect => {
                // A client should never send the inner marker to the frontend.
                Err(Error::PeerMisbehaved(PeerMisbehaved::InvalidEchClientHelloInner))
            },
        }
    }

    /// Decrypt ECH from a ClientHello TLS record.
    pub fn decrypt_client_hello_record<H: Hpke<Opener = O>>(
        tls_record: &[u8],
        ech_keys: &[EchServerKey<H>],
    ) -> (r: Result<EchFrontendResult<O>, Error>)
        ensures
            match r {
                Ok(result) => first_record(tls_record@, ech_keys@) == Ok::<
                    FrontendResultView,
                    crate::error::ErrorView,
                >(result@),
                Err(e) => first_record(tls_record@, ech_keys@) == Err::<
                    FrontendResultView,
                    crate::error::ErrorView,
                >(e@),
            },
    {
        let (record_version, handshake_message) = parse_tls_record(tls_record)?;
        match EchFrontend::decrypt_handshake_msg(handshake_message, ech_keys)? {
            EchFrontendResult::Decrypted(inner_msg, frontend) => {
                let inner_record = wrap_handshake_in_record(record_version, &inner_msg);
                Ok(EchFrontendResult::Decrypted(inner_record, frontend))
            },
            other => Ok(other),
        }
    }

    /// Core ECH HRR decryption on raw handshake message bytes.
    pub fn decrypt_handshake_msg_hrr(&mut self, handshake_message: &[u8]) -> (r: Result<
        Vec<u8>,
        Error,
    >)
        ensures
            match r {
                Ok(inner) => second_message::<O>(old(self)@, handshake_message@).0 == Ok::<
                    Seq<u8>,
                    crate::error::ErrorView,
                >(inner@),
                Err(e) => second_message::<O>(old(self)@, handshake_message@).0 == Err::<
                    Seq<u8>,
                    crate::error::ErrorView,
                >(e@),
            },
            final(self)@ == second_message::<O>(old(self)@, handshake_message@).1,
    {
        reveal(second_message);
        let outer_hello = parse_client_hello(handshake_message)?;
        let outer_extensions_raw = inner_hello::extract_extensions_from_client_hello(
            handshake_message,
        )?;
        let config_id = self.config_id;
        let cipher_suite = self.cipher_suite;
        let (_inner_hello, inner_hello_raw) = ech::decrypt_ech_hrr(
            &outer_hello,
            handshake_message,
            outer_extensions_raw,
            &mut self.opener,
            Some(config_id),
            Some(cipher_suite),
        )?;
        Ok(inner_hello::encode_inner_hello(&inner_hello_raw))
    }

    /// Decrypt ECH from a second ClientHello TLS record after HelloRetryRequest.
    pub fn decrypt_client_hello_record_hrr(&mut self, tls_record: &[u8]) -> (r: Result<
        Vec<u8>,
        Error,
    >)
        ensures
            match r {
                Ok(inner) => second_record::<O>(old(self)@, tls_record@).0 == Ok::<
                    Seq<u8>,
                    crate::error::ErrorView,
                >(inner@),
                Err(e) => second_record::<O>(old(self)@, tls_record@).0 == Err::<
                    Seq<u8>,
                    crate::error::ErrorView,
                >(e@),
            },
            final(self)@ == second_record::<O>(old(self)@, tls_record@).1,
    {
        let (record_version, handshake_message) = parse_tls_record(tls_record)?;
        let inner_msg = self.decrypt_handshake_msg_hrr(handshake_message)?;
        Ok(wrap_handshake_in_record(record_version, &inner_msg))
    }
}

/// Result of processing a ClientHello for ECH split-mode proxying.
///
/// Returned by [`EchProxy::process_client_hello_msg`].
#[derive(Debug)]
pub enum EchProxyResult {
    /// ECH was successfully decrypted. Contains the inner ClientHello as a
    /// handshake message (`type(1) || length(3) || body`), ready to be placed
    /// in a QUIC CRYPTO frame or TLS record for forwarding to the backend.
    Decrypted(Vec<u8>),
    /// No ECH extension was present. The original ClientHello should be
    /// forwarded unchanged.
    NotOffered,
    /// ECH decryption failed (config mismatch, wrong key, etc). The original
    /// ClientHello should be forwarded unchanged. Contains serialized
    /// retry\_configs that the backend may send in EncryptedExtensions.
    Rejected(Vec<u8>),
}

/// The value of an [`EchProxyResult`].
pub enum ProxyResultView {
    Decrypted(Seq<u8>),
    NotOffered,
    Rejected(Seq<u8>),
}

impl View for EchProxyResult {
    type V = ProxyResultView;

    open spec fn view(&self) -> ProxyResultView {
        match self {
            EchProxyResult::Decrypted(inner) => ProxyResultView::Decrypted(inner@),
            EchProxyResult::NotOffered => ProxyResultView::NotOffered,
            EchProxyResult::Rejected(retry_configs) => ProxyResultView::Rejected(retry_configs@),
        }
    }
}

/// The value of an [`EchProxy`].
pub struct ProxyView<H> {
    pub keys: Seq<EchServerKey<H>>,
    pub frontend: Option<FrontendView>,
    pub done: bool,
}

/// What a proxy makes of a ClientHello, and its state afterwards.
pub open spec fn proxied_message<H: Hpke>(proxy: ProxyView<H>, handshake_message: Seq<u8>) -> (
    Result<ProxyResultView, crate::error::ErrorView>,
    ProxyView<H>,
) {
    match proxy.frontend {
        Some(frontend) => {
            let (r, after) = second_message::<H::Opener>(frontend, handshake_message);
            match r {
                Err(e) => (Err(e), ProxyView { frontend: Some(after), ..proxy }),
                Ok(inner) => (
                    Ok(ProxyResultView::Decrypted(inner)),
                    ProxyView { frontend: Some(after), done: true, ..proxy },
                ),
            }
        },
        None => match first_message(handshake_message, proxy.keys) {
            Err(e) => (Err(e), proxy),
            Ok(FrontendResultView::Decrypted(inner, frontend)) => (
                Ok(ProxyResultView::Decrypted(inner)),
                ProxyView { frontend: Some(frontend), ..proxy },
            ),
            Ok(FrontendResultView::NotOffered) => (
                Ok(ProxyResultView::NotOffered),
                ProxyView { done: true, ..proxy },
            ),
            Ok(FrontendResultView::Rejected(retry_configs)) => (
                Ok(ProxyResultView::Rejected(retry_configs)),
                ProxyView { done: true, ..proxy },
            ),
        },
    }
}

/// What a proxy forwards for a record, and its state afterwards.
pub open spec fn proxied_record<H: Hpke>(proxy: ProxyView<H>, record: Seq<u8>) -> (
    Result<Seq<u8>, crate::error::ErrorView>,
    ProxyView<H>,
) {
    if !holds_client_hello(record) {
        (Ok(record), ProxyView { done: true, ..proxy })
    } else {
        match proxy.frontend {
            Some(frontend) => {
                let (r, after) = second_record::<H::Opener>(frontend, record);
                match r {
                    Err(e) => (Err(e), ProxyView { frontend: Some(after), ..proxy }),
                    Ok(inner) => (
                        Ok(inner),
                        ProxyView { frontend: Some(after), done: true, ..proxy },
                    ),
                }
            },
            None => match first_record(record, proxy.keys) {
                Err(e) => (Err(e), proxy),
                Ok(FrontendResultView::Decrypted(inner, frontend)) => (
                    Ok(inner),
                    ProxyView { frontend: Some(frontend), ..proxy },
                ),
                Ok(_) => (Ok(record), ProxyView { done: true, ..proxy }),
            },
        }
    }
}

/// A record that does not start a ClientHello is forwarded as it is, and ends
/// the proxy's work.
pub proof fn other_records_pass_unchanged<H: Hpke>(proxy: ProxyView<H>, record: Seq<u8>)
    requires
        !holds_client_hello(record),
    ensures
        proxied_record(proxy, record) == (
            Ok::<Seq<u8>, crate::error::ErrorView>(record),
            ProxyView { done: true, ..proxy },
        ),
{
}

/// A first ClientHello that does not offer ECH, or whose offer no key opens, is
/// forwarded as it is, and ends the proxy's work.
pub proof fn undecrypted_hello_passes_unchanged<H: Hpke>(proxy: ProxyView<H>, record: Seq<u8>)
    requires
        proxy.frontend is None,
        first_record(record, proxy.keys) matches Ok(r) && !(r is Decrypted),
    ensures
        proxied_record(proxy, record) == (
            Ok::<Seq<u8>, crate::error::ErrorView>(record),
            ProxyView { done: true, ..proxy },
        ),
{
}

/// A record with a first ClientHello that does not offer ECH, with or without
/// other extensions, is forwarded as it is, and ends the proxy's work.
pub proof fn hello_without_offer_passes_unchanged<H: Hpke>(proxy: ProxyView<H>, record: Seq<u8>)
    requires
        proxy.frontend is None,
        parsed_record(record) matches Ok((version, handshake_message)) && (parsed_client_hello(
            handshake_message,
        ) matches Ok(outer) && outer.extensions.encrypted_client_hello is None),
    ensures
        proxied_record(proxy, record) == (
            Ok::<Seq<u8>, crate::error::ErrorView>(record),
            ProxyView { done: true, ..proxy },
        ),
{
    reveal(first_message);
}

/// A proxy that is done stays done, and no proxy forgets its keys.
pub proof fn done_stays_done<H: Hpke>(proxy: ProxyView<H>, input: Seq<u8>)
    ensures
        proxy.done ==> proxied_record(proxy, input).1.done && proxied_message(proxy, input).1.done,
        proxied_record(proxy, input).1.keys == proxy.keys,
        proxied_message(proxy, input).1.keys == proxy.keys,
{
}

/// A proxy is done once it has forwarded two ClientHellos that it decrypted.
pub proof fn second_decryption_ends_the_work<H: Hpke>(
    proxy: ProxyView<H>,
    first: Seq<u8>,
    second: Seq<u8>,
)
    requires
        proxied_message(proxy, first).0 matches Ok(r) && r is Decrypted,
    ensures
        proxied_message(proxied_message(proxy, first).1, second).0 is Ok ==> proxied_message(
            proxied_message(proxy, first).1,
            second,
        ).1.done,
{
}

/// A ClientHello is treated alike whether it comes in a record or on its own: the
/// proxy is left in the same state, and what is forwarded is the same message,
/// in a record of the same version.
pub proof fn records_and_messages_agree<H: Hpke>(
    proxy: ProxyView<H>,
    version: u16,
    handshake_message: Seq<u8>,
)
    requires
        0 < handshake_message.len() < 65536,
        handshake_message[0] == CLIENT_HELLO,
    ensures
        ({
            let record = record_of(version, handshake_message);
            let (by_record, after_record) = proxied_record(proxy, record);
            let (by_message, after_message) = proxied_message(proxy, handshake_message);
            &&& after_record == after_message
            &&& by_record == match by_message {
                Err(e) => Err::<Seq<u8>, crate::error::ErrorView>(e),
                Ok(ProxyResultView::Decrypted(inner)) => Ok(record_of(version, inner)),
                Ok(_) => Ok(record),
            }
        }),
{
    record_round_trip(version, handshake_message);
}

/// What is forwarded for a first ClientHello that was decrypted is a ClientHello
/// with the inner marker. It names the versions that it offers, and TLS 1.2 is
/// not among them.
pub proof fn forwarded_hello_is_inner<H: Hpke>(
    handshake_message: Seq<u8>,
    keys: Seq<EchServerKey<H>>,
)
    ensures
        first_message(handshake_message, keys) matches Ok(
            FrontendResultView::Decrypted(inner, frontend),
        ) ==> (parsed_client_hello(inner) matches Ok(h) && inner_hello::is_inner(h)),
{
    reveal(first_message);
    if let Ok(outer) = parsed_client_hello(handshake_message) {
        if let Some(hello::EchExtView::Outer(ext)) = outer.extensions.encrypted_client_hello {
            if let Some(extensions) = inner_hello::message_extensions(handshake_message) {
                let offer = ech::OfferView {
                    ext,
                    session_id: outer.session_id,
                    encoded: handshake_message,
                    extensions,
                };
                ech::accepted_hello_is_inner(keys, offer);
                if let ech::DecryptView::Accepted { hello, raw, context } = ech::tried_all(
                    keys,
                    offer,
                ) {
                    inner_hello::lemma_hello_message(raw);
                }
            }
        }
    }
}

/// What a client sealed is what the backend gets: if the first key that opens
/// the offer finds an encoded inner ClientHello under the payload, then that
/// ClientHello, under the session ID of the outer one, is what a new proxy
/// forwards.
pub proof fn sealed_hello_is_forwarded<H: Hpke>(
    keys: Seq<EchServerKey<H>>,
    handshake_message: Seq<u8>,
    offer: ech::OfferView,
    k: int,
    inner: hello::HelloView,
    padding: nat,
)
    requires
        parsed_client_hello(handshake_message) matches Ok(outer)
            && outer.extensions.encrypted_client_hello == Some(hello::EchExtView::Outer(offer.ext))
            && outer.session_id == offer.session_id,
        offer.encoded == handshake_message,
        inner_hello::message_extensions(handshake_message) == Some(offer.extensions),
        0 <= k < keys.len(),
        forall|i: int| 0 <= i < k ==> ech::tried(#[trigger] keys[i], offer) is Rejected,
        ech::sets_up(keys[k], offer.ext),
        hpke::opened_by::<H::Opener>(
            hpke::OpenerView::fresh(
                (ech::chosen_suite(keys[k], offer.ext)->0).implements(),
                offer.ext.enc,
                ech_key::info_of(keys[k].config@),
                keys[k].private_key@,
            ),
            outer_aad::outer_aad(handshake_message, offer.ext.payload.len() as int),
            offer.ext.payload,
        ) == Some(
            hello::hello_bytes(hello::HelloView { session_id: Seq::empty(), ..inner })
                + wire::zeros(padding),
        ),
        hello::hello_valid(inner),
        inner_hello::is_inner(inner),
        inner.session_id == offer.session_id,
    ensures
        proxied_message(
            ProxyView { keys, frontend: None, done: false },
            handshake_message,
        ).0 == Ok::<ProxyResultView, crate::error::ErrorView>(
            ProxyResultView::Decrypted(inner_hello::hello_message(hello::hello_bytes(inner))),
        ),
{
    reveal(first_message);
    ech::sealed_hello_is_accepted(keys[k], offer, inner, padding);
    ech::first_key_that_opens_decides(keys, offer, k);
    let outer = parsed_client_hello(handshake_message)->Ok_0;
    assert(ech::decrypted(outer, handshake_message, offer.extensions, keys) == ech::tried_all(
        keys,
        offer,
    ));
}

/// What a client sealed is what the backend gets, whatever extensions the inner
/// ClientHello has and refers to: if the first key that opens the offer finds its
/// encoding under the payload, then that ClientHello, under the session ID of the
/// outer one, is what is forwarded for a first ClientHello.
pub proof fn encoded_hello_is_forwarded<H: Hpke>(
    proxy: ProxyView<H>,
    handshake_message: Seq<u8>,
    offer: ech::OfferView,
    k: int,
    p: hello::PrefixView,
    list: Seq<extensions::RawExtension>,
    full: Seq<extensions::RawExtension>,
    padding: nat,
)
    requires
        proxy.frontend is None,
        parsed_client_hello(handshake_message) matches Ok(outer)
            && outer.extensions.encrypted_client_hello == Some(hello::EchExtView::Outer(offer.ext))
            && outer.session_id == offer.session_id,
        offer.encoded == handshake_message,
        inner_hello::message_extensions(handshake_message) == Some(offer.extensions),
        inner_hello::encodes_inner(p, list, full, offer.session_id, offer.extensions),
        0 <= k < proxy.keys.len(),
        forall|i: int| 0 <= i < k ==> ech::tried(#[trigger] proxy.keys[i], offer) is Rejected,
        ech::sets_up(proxy.keys[k], offer.ext),
        hpke::opened_by::<H::Opener>(
            hpke::OpenerView::fresh(
                (ech::chosen_suite(proxy.keys[k], offer.ext)->0).implements(),
                offer.ext.enc,
                ech_key::info_of(proxy.keys[k].config@),
                proxy.keys[k].private_key@,
            ),
            outer_aad::outer_aad(handshake_message, offer.ext.payload.len() as int),
            offer.ext.payload,
        ) == Some(inner_hello::encoded_inner(p, list, padding)),
    ensures
        proxied_message(proxy, handshake_message).0 == Ok::<
            ProxyResultView,
            crate::error::ErrorView,
        >(
            ProxyResultView::Decrypted(
                inner_hello::hello_message(
                    inner_hello::restored_inner(p, full, offer.session_id),
                ),
            ),
        ),
{
    reveal(first_message);
    ech::encoded_hello_is_accepted(proxy.keys[k], offer, p, list, full, padding);
    ech::first_key_that_opens_decides(proxy.keys, offer, k);
    let outer = parsed_client_hello(handshake_message)->Ok_0;
    assert(ech::decrypted(outer, handshake_message, offer.extensions, proxy.keys)
        == ech::tried_all(proxy.keys, offer));
}

/// The same of a second ClientHello, which the opener of the first one opens.
pub proof fn second_encoded_hello_is_forwarded<H: Hpke>(
    proxy: ProxyView<H>,
    handshake_message: Seq<u8>,
    extensions: Seq<u8>,
    p: hello::PrefixView,
    list: Seq<extensions::RawExtension>,
    full: Seq<extensions::RawExtension>,
    padding: nat,
)
    requires
        proxy.frontend is Some,
        parsed_client_hello(handshake_message) is Ok,
        inner_hello::message_extensions(handshake_message) == Some(extensions),
        ({
            let outer = parsed_client_hello(handshake_message)->Ok_0;
            let frontend = proxy.frontend->0;
            &&& inner_hello::encodes_inner(p, list, full, outer.session_id, extensions)
            &&& ech::hrr_offer(
                outer.extensions.encrypted_client_hello,
                Some(frontend.config_id),
                Some(frontend.cipher_suite),
            ) matches Ok(ext) && hpke::opened_by::<H::Opener>(
                frontend.context,
                outer_aad::outer_aad(handshake_message, ext.payload.len() as int),
                ext.payload,
            ) == Some(inner_hello::encoded_inner(p, list, padding))
        }),
    ensures
        ({
            let outer = parsed_client_hello(handshake_message)->Ok_0;
            proxied_message(proxy, handshake_message).0 == Ok::<
                ProxyResultView,
                crate::error::ErrorView,
            >(
                ProxyResultView::Decrypted(
                    inner_hello::hello_message(
                        inner_hello::restored_inner(p, full, outer.session_id),
                    ),
                ),
            )
        }),
{
    reveal(second_message);
    let outer = parsed_client_hello(handshake_message)->Ok_0;
    let frontend = proxy.frontend->0;
    ech::second_encoded_hello_is_decrypted::<H::Opener>(
        frontend.context,
        outer,
        handshake_message,
        extensions,
        Some(frontend.config_id),
        Some(frontend.cipher_suite),
        p,
        list,
        full,
        padding,
    );
}

/// A second ClientHello, too, is decrypted to one with the inner marker that does
/// not offer TLS 1.2.
pub proof fn second_forwarded_hello_is_inner<O: HpkeOpener>(
    frontend: FrontendView,
    handshake_message: Seq<u8>,
)
    ensures
        second_message::<O>(frontend, handshake_message).0 matches Ok(inner) ==> (
        parsed_client_hello(inner) matches Ok(h) && inner_hello::is_inner(h)),
{
    reveal(second_message);
    reveal(ech::hrr_decrypted);
    if let Ok(outer) = parsed_client_hello(handshake_message) {
        if let Some(extensions) = inner_hello::message_extensions(handshake_message) {
            if let Ok((h, raw)) = ech::hrr_decrypted::<O>(
                frontend.context,
                outer,
                handshake_message,
                extensions,
                Some(frontend.config_id),
                Some(frontend.cipher_suite),
            ) {
                inner_hello::lemma_hello_message(raw);
            }
        }
    }
}

/// ECH split-mode proxy for a client-facing frontend server.
///
/// In ECH split mode (RFC 9849, section 3.1), a client-facing frontend holds
/// the ECH private keys and decrypts the outer ClientHello. It forwards the
/// reconstructed inner ClientHello (with the `ech_is_inner` type=1 marker)
/// to the backend server, then acts as a TCP proxy. The backend completes
/// the TLS handshake without needing the ECH keys.
///
/// This type handles the full proxy flow, including HelloRetryRequest. Feed
/// it every client-to-server TLS record via [`process_client_record`]; it
/// decrypts ECH from ClientHello records and returns everything else unchanged.
/// Server-to-client records are always forwarded unchanged (the proxy does not
/// need to inspect them).
///
/// [`process_client_record`]: EchProxy::process_client_record
pub struct EchProxy<H: Hpke> {
    keys: Arc<[EchServerKey<H>]>,
    frontend: Option<EchFrontend<H::Opener>>,
    done: bool,
}

impl<H: Hpke> View for EchProxy<H> {
    type V = ProxyView<H>;

    closed spec fn view(&self) -> ProxyView<H> {
        ProxyView {
            keys: self.keys@,
            frontend: match self.frontend {
                Some(frontend) => Some(frontend@),
                None => None,
            },
            done: self.done,
        }
    }
}

impl<H: Hpke> EchProxy<H> {
    /// Create a new ECH proxy with the given server keys.
    pub fn new(keys: Arc<[EchServerKey<H>]>) -> (proxy: EchProxy<H>)
        ensures
            proxy@ == (ProxyView { keys: keys@, frontend: None, done: false }),
    {
        EchProxy { keys, frontend: None, done: false }
    }

    /// Process a client-to-server TLS record.
    ///
    /// If the record contains a ClientHello with ECH, decrypts it and returns
    /// a TLS record containing the inner ClientHello. All other records are
    /// returned unchanged.
    ///
    /// Call this for every client-to-server TLS record during the handshake.
    /// After `is_done()` returns true, the proxy is no longer needed and the
    /// caller should splice the streams bidirectionally.
    pub fn process_client_record(&mut self, tls_record: &[u8]) -> (r: Result<Vec<u8>, Error>)
        ensures
            match r {
                Ok(forward) => proxied_record(old(self)@, tls_record@).0 == Ok::<
                    Seq<u8>,
                    crate::error::ErrorView,
                >(forward@),
                Err(e) => proxied_record(old(self)@, tls_record@).0 == Err::<
                    Seq<u8>,
                    crate::error::ErrorView,
                >(e@),
            },
            final(self)@ == proxied_record(old(self)@, tls_record@).1,
    {
        // Only process Handshake records containing a ClientHello.
        if !is_client_hello_record(tls_record) {
            self.done = true;
            return Ok(vstd::slice::slice_to_vec(tls_record));
        }
        match &mut self.frontend {
            Some(frontend) => {
                // Second ClientHello after HRR.
                let inner = frontend.decrypt_client_hello_record_hrr(tls_record)?;
                self.done = true;
                Ok(inner)
            },
            None => {
                // First ClientHello.
                match EchFrontend::decrypt_client_hello_record(tls_record, &self.keys)? {
                    EchFrontendResult::Decrypted(inner, frontend) => {
                        self.frontend = Some(frontend);
                        Ok(inner)
                    },
                    EchFrontendResult::NotOffered => {
                        self.done = true;
                        Ok(vstd::slice::slice_to_vec(tls_record))
                    },
                    EchFrontendResult::Rejected(_) => {
                        self.done = true;
                        // Forward the original record.
                        Ok(vstd::slice::slice_to_vec(tls_record))
                    },
                }
            },
        }
    }

    /// Process raw ClientHello handshake message bytes (without TLS record framing).
    ///
    /// This is the QUIC counterpart of [`process_client_record`]. Use it when
    /// the ClientHello arrives in a QUIC CRYPTO frame rather than a TLS record.
    ///
    /// The input `hs_msg` should be the raw handshake message bytes starting with
    /// the ClientHello type byte (0x01), as extracted from QUIC CRYPTO frame data.
    ///
    /// On success with [`EchProxyResult::Decrypted`], the returned bytes are the
    /// inner ClientHello handshake message (including the `ech_is_inner` marker),
    /// ready to be placed in a CRYPTO frame for forwarding to the backend.
    ///
    /// [`process_client_record`]: EchProxy::process_client_record
    pub fn process_client_hello_msg(&mut self, hs_msg: &[u8]) -> (r: Result<EchProxyResult, Error>)
        ensures
            match r {
                Ok(result) => proxied_message(old(self)@, hs_msg@).0 == Ok::<
                    ProxyResultView,
                    crate::error::ErrorView,
                >(result@),
                Err(e) => proxied_message(old(self)@, hs_msg@).0 == Err::<
                    ProxyResultView,
                    crate::error::ErrorView,
                >(e@),
            },
            final(self)@ == proxied_message(old(self)@, hs_msg@).1,
    {
        match &mut self.frontend {
            Some(frontend) => {
                // Second ClientHello after HRR.
                let inner = frontend.decrypt_handshake_msg_hrr(hs_msg)?;
                self.done = true;
                Ok(EchProxyResult::Decrypted(inner))
            },
            None => {
                // First ClientHello.
                match EchFrontend::decrypt_handshake_msg(hs_msg, &self.keys)? {
                    EchFrontendResult::Decrypted(inner, frontend) => {
                        self.frontend = Some(frontend);
                        Ok(EchProxyResult::Decrypted(inner))
                    },
                    EchFrontendResult::NotOffered => {
                        self.done = true;
                        Ok(EchProxyResult::NotOffered)
                    },
                    EchFrontendResult::Rejected(retry_configs) => {
                        self.done = true;
                        Ok(EchProxyResult::Rejected(retry_configs))
                    },
                }
            },
        }
    }

    /// Whether ECH processing is complete.
    ///
    /// After this returns true, all subsequent client-to-server and
    /// server-to-client data should be forwarded unchanged (the proxy
    /// becomes a TCP splice).
    pub fn is_done(&self) -> (done: bool)
        ensures
            done == self@.done,
    {
        self.done
    }
}

/// Which records start a ClientHello, how a record is laid out, and how one is read:
/// the payload is as long as its header says, and more may follow it.
pub proof fn records_are_laid_out(version: u16, message: Seq<u8>, behind: Seq<u8>)
    requires
        message.len() < 65536,
    ensures
        record_of(version, message) == seq![
            0x16u8,
            (version / 256) as u8,
            (version % 256) as u8,
            (message.len() / 256) as u8,
            (message.len() % 256) as u8,
        ] + message,
        parsed_record(record_of(version, message) + behind) == Ok::<
            (u16, Seq<u8>),
            crate::error::ErrorView,
        >((version, message)),
        holds_client_hello(record_of(version, message)) <==> message.len() > 0 && message[0] == 1,
{
    let record = record_of(version, message);
    assert(record =~= seq![
        0x16u8,
        (version / 256) as u8,
        (version % 256) as u8,
        (message.len() / 256) as u8,
        (message.len() % 256) as u8,
    ] + message);
    assert((record + behind).skip(3) =~= wire::vec16(message) + behind);
    wire::lemma_take_vec16(message, behind);
}

/// How a record is refused: if it is shorter than a header, if it is no handshake
/// record, and if it ends before its payload does. No other record is refused.
pub proof fn records_are_refused(record: Seq<u8>)
    ensures
        record.len() < 5 ==> parsed_record(record) == Err::<
            (u16, Seq<u8>),
            crate::error::ErrorView,
        >(crate::error::ErrorView::General("TLS record too short"@)),
        record.len() >= 5 && record[0] != 0x16 ==> parsed_record(record) == Err::<
            (u16, Seq<u8>),
            crate::error::ErrorView,
        >(crate::error::ErrorView::General("not a Handshake TLS record"@)),
        record.len() >= 5 && record[0] == 0x16 && record.len() < 5 + record[3] * 256 + record[4]
            ==> parsed_record(record) == Err::<(u16, Seq<u8>), crate::error::ErrorView>(
            crate::error::ErrorView::General("TLS record truncated"@),
        ),
        record.len() >= 5 && record[0] == 0x16 && record.len() >= 5 + record[3] * 256 + record[4]
            ==> (parsed_record(record) matches Ok((version, payload)) && version == record[1] * 256
            + record[2] && payload == record.subrange(5, 5 + record[3] * 256 + record[4])),
        holds_client_hello(record) <==> record.len() >= 6 && record[0] == 0x16 && record[5] == 1,
{
    if record.len() >= 5 && record[0] == 0x16 && record.len() >= 5 + record[3] * 256 + record[4] {
        let n = record[3] * 256 + record[4];
        assert(record.skip(3).skip(2).take(n) =~= record.subrange(5, 5 + n));
    }
}

/// The ClientHello of a message is the one that its body is read as, whatever its
/// length field says. Messages of another type, and bodies that are no ClientHello,
/// are refused.
pub proof fn hello_is_read_from_its_message(header: Seq<u8>, body: Seq<u8>)
    requires
        header.len() == 4,
    ensures
        header[0] != 1 ==> parsed_client_hello(header + body) == Err::<
            hello::HelloView,
            crate::error::ErrorView,
        >(crate::error::ErrorView::General("not a ClientHello handshake message"@)),
        header[0] == 1 ==> parsed_client_hello(header + body) == match hello::parsed_hello(body) {
            Some(h) => Ok::<hello::HelloView, crate::error::ErrorView>(h),
            None => Err(
                crate::error::ErrorView::PeerMisbehaved(
                    PeerMisbehaved::InvalidEchClientHelloInner,
                ),
            ),
        },
{
    assert((header + body).skip(4) =~= body);
}

/// What becomes of a first ClientHello: one without an offer is not touched, one
/// that is itself an inner one is refused, and an offer is decided by the keys. An
/// inner ClientHello goes out as a message; a rejection carries the retry configs.
pub proof fn first_hello_is_decided_by_its_offer<H: Hpke>(
    message: Seq<u8>,
    outer: hello::HelloView,
    keys: Seq<EchServerKey<H>>,
)
    requires
        parsed_client_hello(message) == Ok::<hello::HelloView, crate::error::ErrorView>(outer),
    ensures
        ({
            let ech = outer.extensions.encrypted_client_hello;
            let r = first_message(message, keys);
            &&& ech is None ==> r == Ok::<FrontendResultView, crate::error::ErrorView>(
                FrontendResultView::NotOffered,
            )
            &&& ech == Some(hello::EchExtView::Inner) ==> r == Err::<
                FrontendResultView,
                crate::error::ErrorView,
            >(crate::error::ErrorView::PeerMisbehaved(PeerMisbehaved::InvalidEchClientHelloInner))
            &&& ech matches Some(hello::EchExtView::Outer(ext)) ==> (
            inner_hello::message_extensions(message) matches Some(list) ==> match ech::decrypted(
                outer,
                message,
                list,
                keys,
            ) {
                ech::DecryptView::Accepted { hello: h, raw, context } => r == Ok::<
                    FrontendResultView,
                    crate::error::ErrorView,
                >(
                    FrontendResultView::Decrypted(
                        inner_hello::hello_message(raw),
                        FrontendView {
                            context,
                            config_id: ext.config_id,
                            cipher_suite: ext.cipher_suite,
                        },
                    ),
                ),
                ech::DecryptView::Fatal(e) => r == Err::<
                    FrontendResultView,
                    crate::error::ErrorView,
                >(e),
                ech::DecryptView::Rejected => r == Ok::<
                    FrontendResultView,
                    crate::error::ErrorView,
                >(
                    FrontendResultView::Rejected(
                        ech_config::config_list_bytes(ech_key::retry_configs_of(keys)),
                    ),
                ),
                _ => true,
            })
        }),
{
    reveal(first_message);
}

/// What becomes of a second ClientHello: it is decrypted with what was kept of the
/// first, and its inner ClientHello goes out as a message.
pub proof fn second_hello_is_decided_by_the_first<O: HpkeOpener>(
    frontend: FrontendView,
    message: Seq<u8>,
    outer: hello::HelloView,
    list: Seq<u8>,
)
    requires
        parsed_client_hello(message) == Ok::<hello::HelloView, crate::error::ErrorView>(outer),
        inner_hello::message_extensions(message) == Some(list),
    ensures
        second_message::<O>(frontend, message).0 == match ech::hrr_decrypted::<O>(
            frontend.context,
            outer,
            message,
            list,
            Some(frontend.config_id),
            Some(frontend.cipher_suite),
        ) {
            Err(e) => Err::<Seq<u8>, crate::error::ErrorView>(
                crate::error::ErrorView::PeerMisbehaved(e),
            ),
            Ok((h, raw)) => Ok(inner_hello::hello_message(raw)),
        },
        second_message::<O>(frontend, message).1.config_id == frontend.config_id,
        second_message::<O>(frontend, message).1.cipher_suite == frontend.cipher_suite,
        second_message::<O>(frontend, message).1.context == ech::hrr_context(
            frontend.context,
            outer,
            message,
            Some(frontend.config_id),
            Some(frontend.cipher_suite),
        ),
{
    reveal(second_message);
}

/// How a proxy goes on: it keeps the opener of the first ClientHello that it
/// decrypts and is not done; a second one that it decrypts ends its work, and so
/// does a first one that it does not decrypt. A ClientHello that is refused does
/// not end it.
pub proof fn proxy_goes_on_after_the_first_decryption<H: Hpke>(
    proxy: ProxyView<H>,
    message: Seq<u8>,
)
    ensures
        ({
            let (r, after) = proxied_message(proxy, message);
            &&& proxy.frontend is None ==> match first_message(message, proxy.keys) {
                Ok(FrontendResultView::Decrypted(inner, frontend)) => r == Ok::<
                    ProxyResultView,
                    crate::error::ErrorView,
                >(ProxyResultView::Decrypted(inner)) && after.frontend == Some(frontend)
                    && after.done == proxy.done,
                Ok(FrontendResultView::NotOffered) => r == Ok::<
                    ProxyResultView,
                    crate::error::ErrorView,
                >(ProxyResultView::NotOffered) && after.done && after.frontend is None,
                Ok(FrontendResultView::Rejected(configs)) => r == Ok::<
                    ProxyResultView,
                    crate::error::ErrorView,
                >(ProxyResultView::Rejected(configs)) && after.done && after.frontend is None,
                Err(e) => r == Err::<ProxyResultView, crate::error::ErrorView>(e) && after == proxy,
            }
            &&& proxy.frontend matches Some(frontend) ==> match second_message::<H::Opener>(
                frontend,
                message,
            ).0 {
                Ok(inner) => r == Ok::<ProxyResultView, crate::error::ErrorView>(
                    ProxyResultView::Decrypted(inner),
                ) && after.done,
                Err(e) => r == Err::<ProxyResultView, crate::error::ErrorView>(e) && after.done
                    == proxy.done,
            }
        }),
{
}

/// A record with a ClientHello is treated as its message is, whatever follows the
/// record: what is decrypted goes out in a record of the same version, and
/// everything else as it came.
pub proof fn records_are_treated_as_their_messages<H: Hpke>(
    proxy: ProxyView<H>,
    version: u16,
    message: Seq<u8>,
    behind: Seq<u8>,
)
    requires
        0 < message.len() < 65536,
        message[0] == 1,
    ensures
        ({
            let record = seq![
                0x16u8,
                (version / 256) as u8,
                (version % 256) as u8,
                (message.len() / 256) as u8,
                (message.len() % 256) as u8,
            ] + message + behind;
            let (by_record, after_record) = proxied_record(proxy, record);
            let (by_message, after_message) = proxied_message(proxy, message);
            &&& after_record == after_message
            &&& by_record == match by_message {
                Err(e) => Err::<Seq<u8>, crate::error::ErrorView>(e),
                Ok(ProxyResultView::Decrypted(inner)) => Ok(record_of(version, inner)),
                Ok(_) => Ok(record),
            }
        }),
{
    records_are_laid_out(version, message, behind);
    assert((record_of(version, message) + behind)[5] == message[0]);
}

/// A record that starts a ClientHello and cannot be read is refused, and changes
/// nothing; so is a message that cannot be read.
pub proof fn unreadable_hellos_are_refused<H: Hpke>(proxy: ProxyView<H>, input: Seq<u8>)
    ensures
        holds_client_hello(input) ==> (parsed_record(input) matches Err(e) ==> proxied_record(
            proxy,
            input,
        ) == (Err::<Seq<u8>, crate::error::ErrorView>(e), proxy)),
        parsed_client_hello(input) matches Err(e) ==> proxied_message(proxy, input).0 == Err::<
            ProxyResultView,
            crate::error::ErrorView,
        >(e) && proxied_message(proxy, input).1 == proxy,
        input.len() < 4 ==> parsed_client_hello(input) == if input.len() > 0 && input[0] != 1 {
            Err::<hello::HelloView, crate::error::ErrorView>(
                crate::error::ErrorView::General("not a ClientHello handshake message"@),
            )
        } else {
            Err(crate::error::ErrorView::PeerMisbehaved(PeerMisbehaved::InvalidEchClientHelloInner))
        },
        parsed_client_hello(input) matches Ok(outer) ==> (inner_hello::message_extensions(
            input,
        ) is None && (outer.extensions.encrypted_client_hello is Some || proxy.frontend is Some)
            ==> proxied_message(proxy, input).0 == Err::<
            ProxyResultView,
            crate::error::ErrorView,
        >(crate::error::ErrorView::PeerMisbehaved(PeerMisbehaved::InvalidEchClientHelloInner))),
{
    reveal(first_message);
    reveal(second_message);
    if let Some(frontend) = proxy.frontend {
        assert(ProxyView { frontend: Some(frontend), ..proxy } == proxy);
    }
}

} // verus!
