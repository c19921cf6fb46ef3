//! Split-mode proxy for handshake messages, on top of the server-side ECH state.

use std::sync::Arc;

use vstd::prelude::*;

use crate::ech;
use crate::ech::EchServerState;
use crate::ech_config;
use crate::ech_config::EchConfigPayload;
use crate::ech_key;
use crate::ech_key::EchServerKey;
use crate::error::{Error, PeerMisbehaved};
use crate::extensions;
use crate::frontend;
use crate::hello;
use crate::hello::EncryptedClientHello;
use crate::hpke;
use crate::hpke::Hpke;
use crate::inner_hello;
use crate::message;
use crate::message::{HandshakePayload, Input, Message, MessagePayload, TLS10};
use crate::outer_aad;
use crate::wire;

verus! {

/// Server keys, together with the configs that clients whose offer was rejected
/// are told of.
pub struct EchKeyIndex<H> {
    keys: Vec<EchServerKey<H>>,
    retry_configs: Vec<EchConfigPayload>,
}

impl<H> View for EchKeyIndex<H> {
    type V = Seq<EchServerKey<H>>;

    closed spec fn view(&self) -> Seq<EchServerKey<H>> {
        self.keys@
    }
}

impl<H> EchKeyIndex<H> {
    #[verifier::type_invariant]
    spec fn inv(self) -> bool {
        ech_config::config_views(self.retry_configs@) == ech_key::retry_configs_of(self.keys@)
    }

    /// An index of the given keys.
    pub fn new(keys: Vec<EchServerKey<H>>) -> (index: EchKeyIndex<H>)
        ensures
            index@ == keys@,
    {
        let retry_configs = ech_key::collect_retry_configs(&keys);
        EchKeyIndex { keys, retry_configs }
    }

    /// The keys, in the order in which they are tried.
    pub fn keys(&self) -> (keys: &[EchServerKey<H>])
        ensures
            keys@ == self@,
    {
        self.keys.as_slice()
    }

    /// The configs of the keys that are marked as retry configs.
    pub fn retry_configs(&self) -> (configs: &[EchConfigPayload])
        ensures
            ech_config::config_views(configs@) == ech_key::retry_configs_of(self@),
    {
        proof {
            use_type_invariant(self);
        }
        self.retry_configs.as_slice()
    }
}

/// Result of processing a ClientHello for ECH split-mode proxying.
///
/// Returned by [`EchProxy::process`].
#[non_exhaustive]
#[derive(Debug)]
pub enum EchProxyResult {
    /// ECH was successfully decrypted. Contains the inner ClientHello as a
    /// handshake message (`type(1) || length(3) || body`), ready to be placed
    /// in a QUIC CRYPTO frame or TLS record for forwarding to the backend.
    Decrypted(Vec<u8>),
    /// No ECH extension was present. The original ClientHello should be
    /// forwarded unchanged.
    NotOffered,
    /// ECH decryption failed (config mismatch, wrong key, etc). The original
    /// ClientHello should be forwarded unchanged. Contains serialized
    /// retry_configs that the backend may send in EncryptedExtensions.
    Rejected(Vec<u8>),
}

impl View for EchProxyResult {
    type V = frontend::ProxyResultView;

    open spec fn view(&self) -> frontend::ProxyResultView {
        match self {
            EchProxyResult::Decrypted(inner) => frontend::ProxyResultView::Decrypted(inner@),
            EchProxyResult::NotOffered => frontend::ProxyResultView::NotOffered,
            EchProxyResult::Rejected(configs) => frontend::ProxyResultView::Rejected(configs@),
        }
    }
}

/// The value of an [`EchProxy`].
pub struct ProxyView<H> {
    pub keys: Seq<EchServerKey<H>>,
    pub state: ech::StateView,
    pub done_retry: bool,
}

/// A handshake message on its way through the proxy.
pub open spec fn proxy_input(parsed: message::HandshakeView, hs_msg: Seq<u8>) -> message::InputView {
    message::InputView {
        version: TLS10,
        payload: message::PayloadView::Handshake { parsed, encoded: hs_msg },
        aligned_handshake: None,
    }
}

/// The ClientHello that a proxy is to look into, or why there is none: the
/// message is malformed, is something else, or has the inner marker.
pub open spec fn outer_hello_of(hs_msg: Seq<u8>) -> Result<
    hello::HelloView,
    crate::error::ErrorView,
> {
    match message::handshake_of(hs_msg) {
        None => Err(
            crate::error::ErrorView::PeerMisbehaved(PeerMisbehaved::InvalidEchClientHelloInner),
        ),
        Some(parsed) => match message::client_hello_in(proxy_input(parsed, hs_msg).payload) {
            Err(e) => Err(e),
            Ok((outer, _)) => if outer.extensions.encrypted_client_hello == Some(
                hello::EchExtView::Inner,
            ) {
                Err(
                    crate::error::ErrorView::PeerMisbehaved(
                        PeerMisbehaved::InvalidEchClientHelloInner,
                    ),
                )
            } else {
                Ok(outer)
            },
        },
    }
}

/// What a proxy answers to a ClientHello: what it was decrypted to, or else the
/// retry configs, of which there may be none, if ECH was offered.
pub open spec fn answer<H>(
    keys: Seq<EchServerKey<H>>,
    outer: hello::HelloView,
    inner: Result<Option<message::InputView>, crate::error::ErrorView>,
) -> Result<frontend::ProxyResultView, crate::error::ErrorView> {
    let retry_configs = ech_key::retry_configs_of(keys);
    match inner {
        Err(e) => Err(e),
        Ok(Some(input)) => Ok(
            frontend::ProxyResultView::Decrypted(input.payload->Handshake_encoded),
        ),
        Ok(None) => if outer.extensions.encrypted_client_hello is Some {
            Ok(frontend::ProxyResultView::Rejected(ech_config::config_list_bytes(retry_configs)))
        } else {
            Ok(frontend::ProxyResultView::NotOffered)
        },
    }
}

/// What a proxy makes of a ClientHello, and its state afterwards.
pub open spec fn processed<H: Hpke>(proxy: ProxyView<H>, hs_msg: Seq<u8>) -> (
    Result<frontend::ProxyResultView, crate::error::ErrorView>,
    ProxyView<H>,
) {
    match outer_hello_of(hs_msg) {
        Err(e) => (Err(e), proxy),
        Ok(outer) => {
            let input = proxy_input(message::HandshakeView::ClientHello(outer), hs_msg);
            if proxy.done_retry {
                let (r, state) = ech::resolved_second::<H::Opener>(input, proxy.state);
                (answer(proxy.keys, outer, ech::replacement(r)), ProxyView { state, ..proxy })
            } else {
                let r = ech::resolved_first(input, proxy.keys);
                (
                    answer(proxy.keys, outer, ech::replacement(r)),
                    ProxyView {
                        state: ech::state_after_first(r, proxy.state),
                        done_retry: true,
                        ..proxy
                    },
                )
            }
        },
    }
}

/// ECH split-mode proxy for a client-facing frontend server.
///
/// In ECH split mode (RFC 9849, section 3.1), a client-facing frontend holds
/// the ECH private keys and decrypts the outer ClientHello. It forwards the
/// reconstructed inner ClientHello (with the `ech_is_inner` type=1 marker)
/// to the backend server, then acts as a TCP/QUIC proxy. The backend completes
/// the TLS handshake without needing the ECH keys.
///
/// This type handles the full proxy flow, including HelloRetryRequest. Feed
/// it each client-to-server ClientHello handshake message via [`process`];
/// it decrypts ECH and returns an [`EchProxyResult`] indicating the outcome.
///
/// The input is the raw handshake message (`type(1) || length(3) || body`),
/// without any transport framing. For TLS-over-TCP, strip the 5-byte TLS
/// record header before calling [`process`] and re-wrap the result. For QUIC,
/// pass the CRYPTO frame payload directly.
///
/// [`process`]: EchProxy::process
pub struct EchProxy<H: Hpke> {
    index: Arc<EchKeyIndex<H>>,
    ech: EchServerState<H::Opener>,
    done_retry: bool,
}

impl<H: Hpke> View for EchProxy<H> {
    type V = ProxyView<H>;

    closed spec fn view(&self) -> ProxyView<H> {
        ProxyView { keys: self.index@, state: self.ech@, done_retry: self.done_retry }
    }
}

impl<H: Hpke> EchProxy<H> {
    /// Create a new ECH proxy with the given key index.
    pub fn new(index: Arc<EchKeyIndex<H>>) -> (proxy: EchProxy<H>)
        ensures
            proxy@ == new_proxy(index@),
    {
        EchProxy { index, ech: EchServerState::new(), done_retry: false }
    }

    /// Process a ClientHello handshake message, decrypting ECH if present.
    ///
    /// The input `hs_msg` should be the raw handshake message bytes
    /// (`type(1) || length(3) || body`), without any transport framing.
    /// For TLS-over-TCP, strip the 5-byte TLS record header first.
    /// For QUIC, pass the CRYPTO frame payload directly.
    ///
    /// Returns an [`EchProxyResult`] indicating whether ECH was decrypted,
    /// not offered, or rejected. On [`Decrypted`], the returned bytes are the
    /// inner ClientHello handshake message (with the `ech_is_inner` marker),
    /// ready to forward to the backend.
    ///
    /// Call once for the initial ClientHello, and optionally once more if a
    /// HelloRetryRequest occurs.
    ///
    /// [`Decrypted`]: EchProxyResult::Decrypted
    pub fn process(&mut self, hs_msg: &[u8]) -> (r: Result<EchProxyResult, Error>)
        ensures
            match r {
                Ok(result) => processed(old(self)@, hs_msg@).0 == Ok::<
                    frontend::ProxyResultView,
                    crate::error::ErrorView,
                >(result@),
                Err(e) => processed(old(self)@, hs_msg@).0 == Err::<
                    frontend::ProxyResultView,
                    crate::error::ErrorView,
                >(e@),
            },
            final(self)@ == processed(old(self)@, hs_msg@).1,
    {
        let parsed = match HandshakePayload::read(hs_msg) {
            Some(parsed) => parsed,
            None => return Err(
                Error::PeerMisbehaved(PeerMisbehaved::InvalidEchClientHelloInner),
            ),
        };
        let input = Input {
            message: Message {
                version: TLS10,
                payload: MessagePayload::Handshake {
                    parsed,
                    encoded: vstd::slice::slice_to_vec(hs_msg),
                },
            },
            aligned_handshake: None,
        };
        // Inner marker should not appear in proxy mode.
        let (outer_hello, _) = message::require_client_hello(&input.message.payload)?;
        if let Some(EncryptedClientHello::Inner) = &outer_hello.extensions.encrypted_client_hello {
            return Err(Error::PeerMisbehaved(PeerMisbehaved::InvalidEchClientHelloInner));
        }
        let had_ech = outer_hello.extensions.encrypted_client_hello.is_some();

        let is_retry = self.done_retry;
        self.done_retry = true;
        let inner_input = if !is_retry {
            self.ech.resolve(self.index.keys(), &input)?
        } else {
            self.ech.resolve_retry(&input)?
        };

        if let Some(inner_input) = inner_input {
            return match inner_input.message.payload {
                MessagePayload::Handshake { encoded, .. } => Ok(EchProxyResult::Decrypted(encoded)),
                MessagePayload::Other { .. } => vstd::pervasive::unreached(),
            };
        }
        let retry_configs = self.index.retry_configs();
        if had_ech {
            let mut retry_bytes: Vec<u8> = Vec::new();
            ech_config::put_config_list(&mut retry_bytes, retry_configs);
            assert(retry_bytes@ =~= ech_config::config_list_bytes(
                ech_key::retry_configs_of(self.index@),
            ));
            Ok(EchProxyResult::Rejected(retry_bytes))
        } else {
            Ok(EchProxyResult::NotOffered)
        }
    }
}

/// A proxy that has not seen a ClientHello.
pub open spec fn new_proxy<H>(keys: Seq<EchServerKey<H>>) -> ProxyView<H> {
    ProxyView {
        keys,
        state: ech::StateView::idle(ech::EchStatus::NotOffered, wire::zeros(32), Seq::empty()),
        done_retry: false,
    }
}

/// A first ClientHello, framed exactly, is decrypted to the same message as by
/// the record-level proxy.
pub proof fn proxies_agree_on_decryption<H: Hpke>(keys: Seq<EchServerKey<H>>, hs_msg: Seq<u8>)
    requires
        hs_msg.len() >= 4,
        hs_msg.len() - 4 == hs_msg[1] * 65536 + hs_msg[2] * 256 + hs_msg[3],
        frontend::first_message(hs_msg, keys) matches Ok(r) && r is Decrypted,
    ensures
        processed(new_proxy(keys), hs_msg).0 matches Ok(frontend::ProxyResultView::Decrypted(inner))
            && frontend::first_message(hs_msg, keys)->Ok_0->Decrypted_0 == inner,
{
    reveal(frontend::first_message);
    assert(hs_msg.skip(4).take(hs_msg.len() - 4) =~= hs_msg.skip(4));
    let outer = frontend::parsed_client_hello(hs_msg)->Ok_0;
    assert(message::handshake_of(hs_msg) == Some(message::HandshakeView::ClientHello(outer)));
}

/// Where the first ClientHello was not decrypted, the second one is not either.
pub proof fn nothing_decrypted_after_rejection<H: Hpke>(proxy: ProxyView<H>, hs_msg: Seq<u8>)
    requires
        proxy.done_retry,
        proxy.state.status == ech::EchStatus::Rejected || proxy.state.status
            == ech::EchStatus::NotOffered,
    ensures
        processed(proxy, hs_msg).0 matches Ok(r) ==> !(r is Decrypted),
        processed(proxy, hs_msg).1 == proxy,
{
}

/// A first or second ClientHello that is answered with `NotOffered` does not
/// offer ECH, and one that does not offer ECH is answered with nothing else,
/// unless it is refused. One that offers ECH and is not decrypted is answered
/// with the retry configs.
pub proof fn not_offered_means_no_offer<H: Hpke>(proxy: ProxyView<H>, hs_msg: Seq<u8>)
    requires
        processed(proxy, hs_msg).0 is Ok,
    ensures
        ({
            let answer = processed(proxy, hs_msg).0->Ok_0;
            let ech = (outer_hello_of(hs_msg)->Ok_0).extensions.encrypted_client_hello;
            &&& answer is NotOffered <==> ech is None
            &&& answer matches frontend::ProxyResultView::Rejected(configs) ==> configs
                == ech_config::config_list_bytes(ech_key::retry_configs_of(proxy.keys))
        }),
{
    reveal(ech::hrr_decrypted);
}

/// What a new proxy decrypts is a ClientHello with the inner marker.
proof fn lemma_first_decrypted_is_inner<H: Hpke>(keys: Seq<EchServerKey<H>>, hs_msg: Seq<u8>)
    ensures
        processed(new_proxy(keys), hs_msg).0 matches Ok(frontend::ProxyResultView::Decrypted(inner))
            ==> (frontend::parsed_client_hello(inner) matches Ok(h) && inner_hello::is_inner(h)),
{
    if let Ok(outer) = outer_hello_of(hs_msg) {
        if let Some(hello::EchExtView::Outer(ext)) = outer.extensions.encrypted_client_hello {
            if let Some(extensions) = inner_hello::message_extensions(hs_msg) {
                let offer = ech::OfferView {
                    ext,
                    session_id: outer.session_id,
                    encoded: hs_msg,
                    extensions,
                };
                ech::accepted_hello_is_inner(keys, offer);
                if let ech::DecryptView::Accepted { hello, raw, context } = ech::tried_all(
                    keys,
                    offer,
                ) {
                    inner_hello::lemma_hello_message(raw);
                }
            }
        }
    }
}

/// What is decrypted, from a first or a second ClientHello, is a ClientHello with
/// the inner marker.
pub proof fn decrypted_hello_is_inner<H: Hpke>(proxy: ProxyView<H>, hs_msg: Seq<u8>)
    ensures
        processed(proxy, hs_msg).0 matches Ok(frontend::ProxyResultView::Decrypted(inner)) ==> (
        frontend::parsed_client_hello(inner) matches Ok(h) && inner_hello::is_inner(h)),
{
    if proxy.done_retry {
        lemma_second_decrypted_is_inner(proxy, hs_msg);
    } else {
        lemma_first_decrypted_is_inner(proxy.keys, hs_msg);
    }
}

proof fn lemma_second_decrypted_is_inner<H: Hpke>(proxy: ProxyView<H>, hs_msg: Seq<u8>)
    requires
        proxy.done_retry,
    ensures
        processed(proxy, hs_msg).0 matches Ok(frontend::ProxyResultView::Decrypted(inner)) ==> (
        frontend::parsed_client_hello(inner) matches Ok(h) && inner_hello::is_inner(h)),
{
    reveal(ech::hrr_decrypted);
    if let Ok(outer) = outer_hello_of(hs_msg) {
        if let Some(extensions) = inner_hello::message_extensions(hs_msg) {
            if let Ok((h, raw)) = ech::hrr_decrypted::<H::Opener>(
                proxy.state.context,
                outer,
                hs_msg,
                extensions,
                proxy.state.config_id,
                proxy.state.cipher_suite,
            ) {
                inner_hello::lemma_hello_message(raw);
            }
        }
    }
}

/// What a client sealed is what is answered to its first ClientHello, whatever
/// extensions the inner ClientHello has and refers to: if the first key that opens
/// the offer finds its encoding under the payload, then the answer is that
/// ClientHello, under the session ID of the outer one.
pub proof fn encoded_hello_is_answered<H: Hpke>(
    proxy: ProxyView<H>,
    hs_msg: Seq<u8>,
    offer: ech::OfferView,
    k: int,
    p: hello::PrefixView,
    list: Seq<extensions::RawExtension>,
    full: Seq<extensions::RawExtension>,
    padding: nat,
)
    requires
        !proxy.done_retry,
        outer_hello_of(hs_msg) matches Ok(outer) && outer.extensions.encrypted_client_hello == Some(
            hello::EchExtView::Outer(offer.ext),
        ) && outer.session_id == offer.session_id,
        offer.encoded == hs_msg,
        inner_hello::message_extensions(hs_msg) == Some(offer.extensions),
        inner_hello::encodes_inner(p, list, full, offer.session_id, offer.extensions),
        0 <= k < proxy.keys.len(),
        forall|i: int| 0 <= i < k ==> ech::tried(#[trigger] proxy.keys[i], offer) is Rejected,
        ech::sets_up(proxy.keys[k], offer.ext),
        hpke::opened_by::<H::Opener>(
            hpke::OpenerView::fresh(
                (ech::chosen_suite(proxy.keys[k], offer.ext)->0).implements(),
                offer.ext.enc,
                ech_key::info_of(proxy.keys[k].config@),
                proxy.keys[k].private_key@,
            ),
            outer_aad::outer_aad(hs_msg, offer.ext.payload.len() as int),
            offer.ext.payload,
        ) == Some(inner_hello::encoded_inner(p, list, padding)),
    ensures
        processed(proxy, hs_msg).0 == Ok::<frontend::ProxyResultView, crate::error::ErrorView>(
            frontend::ProxyResultView::Decrypted(
                inner_hello::hello_message(
                    inner_hello::restored_inner(p, full, offer.session_id),
                ),
            ),
        ),
{
    ech::encoded_hello_is_accepted(proxy.keys[k], offer, p, list, full, padding);
    ech::first_key_that_opens_decides(proxy.keys, offer, k);
    let outer = outer_hello_of(hs_msg)->Ok_0;
    assert(ech::decrypted(outer, hs_msg, offer.extensions, proxy.keys) == ech::tried_all(
        proxy.keys,
        offer,
    ));
}

/// The same of a second ClientHello where the first was accepted.
pub proof fn second_encoded_hello_is_answered<H: Hpke>(
    proxy: ProxyView<H>,
    hs_msg: Seq<u8>,
    extensions: Seq<u8>,
    p: hello::PrefixView,
    list: Seq<extensions::RawExtension>,
    full: Seq<extensions::RawExtension>,
    padding: nat,
)
    requires
        proxy.done_retry,
        proxy.state.status == ech::EchStatus::Accepted,
        outer_hello_of(hs_msg) is Ok,
        inner_hello::message_extensions(hs_msg) == Some(extensions),
        ({
            let outer = outer_hello_of(hs_msg)->Ok_0;
            &&& inner_hello::encodes_inner(p, list, full, outer.session_id, extensions)
            &&& ech::hrr_offer(
                outer.extensions.encrypted_client_hello,
                proxy.state.config_id,
                proxy.state.cipher_suite,
            ) matches Ok(ext) && hpke::opened_by::<H::Opener>(
                proxy.state.context,
                outer_aad::outer_aad(hs_msg, ext.payload.len() as int),
                ext.payload,
            ) == Some(inner_hello::encoded_inner(p, list, padding))
        }),
    ensures
        ({
            let outer = outer_hello_of(hs_msg)->Ok_0;
            processed(proxy, hs_msg).0 == Ok::<frontend::ProxyResultView, crate::error::ErrorView>(
                frontend::ProxyResultView::Decrypted(
                    inner_hello::hello_message(
                        inner_hello::restored_inner(p, full, outer.session_id),
                    ),
                ),
            )
        }),
{
    let outer = outer_hello_of(hs_msg)->Ok_0;
    ech::second_encoded_hello_is_decrypted::<H::Opener>(
        proxy.state.context,
        outer,
        hs_msg,
        extensions,
        proxy.state.config_id,
        proxy.state.cipher_suite,
        p,
        list,
        full,
        padding,
    );
}

/// How a proxy goes on: it takes the first ClientHello that is not refused as the
/// first, and every other one as a second. What is refused as no ClientHello, or as
/// one with the inner marker, changes nothing.
pub proof fn first_hello_is_taken_once<H: Hpke>(proxy: ProxyView<H>, hs_msg: Seq<u8>)
    ensures
        ({
            let (r, after) = processed(proxy, hs_msg);
            &&& outer_hello_of(hs_msg) matches Err(e) ==> r == Err::<
                frontend::ProxyResultView,
                crate::error::ErrorView,
            >(e) && after == proxy
            &&& outer_hello_of(hs_msg) is Ok ==> after.done_retry && after.keys == proxy.keys
            &&& outer_hello_of(hs_msg) matches Ok(outer) ==> {
                let input = message::InputView {
                    version: 0x0301,
                    payload: message::PayloadView::Handshake {
                        parsed: message::HandshakeView::ClientHello(outer),
                        encoded: hs_msg,
                    },
                    aligned_handshake: None,
                };
                &&& !proxy.done_retry ==> (ech::resolved_first(input, proxy.keys) matches Ok(
                    ech::EchOfferView::Resolved { inner_input, state },
                ) ==> after.state == state)
                &&& !proxy.done_retry ==> (ech::resolved_first(input, proxy.keys) matches Err(e)
                    ==> r == Err::<frontend::ProxyResultView, crate::error::ErrorView>(e))
                &&& proxy.done_retry ==> after.state == ech::resolved_second::<H::Opener>(
                    input,
                    proxy.state,
                ).1
                &&& proxy.done_retry ==> (ech::resolved_second::<H::Opener>(
                    input,
                    proxy.state,
                ).0 matches Err(e) ==> r == Err::<
                    frontend::ProxyResultView,
                    crate::error::ErrorView,
                >(e))
            }
        }),
{
}

/// Which messages a proxy looks into: ClientHellos whose body has the length that
/// the header says and can be read, without the inner marker. How others are
/// refused.
pub proof fn only_outer_hellos_are_looked_into(header: Seq<u8>, body: Seq<u8>, behind: Seq<u8>)
    requires
        header.len() == 4,
        body.len() == header[1] * 0x10000 + header[2] * 0x100 + header[3],
    ensures
        header[0] == 1 ==> match hello::parsed_hello(body) {
            None => outer_hello_of(header + body + behind) == Err::<
                hello::HelloView,
                crate::error::ErrorView,
            >(crate::error::ErrorView::PeerMisbehaved(PeerMisbehaved::InvalidEchClientHelloInner)),
            Some(h) => outer_hello_of(header + body + behind)
                == if h.extensions.encrypted_client_hello == Some(hello::EchExtView::Inner) {
                Err::<hello::HelloView, crate::error::ErrorView>(
                    crate::error::ErrorView::PeerMisbehaved(
                        PeerMisbehaved::InvalidEchClientHelloInner,
                    ),
                )
            } else {
                Ok(h)
            },
        },
        header[0] != 1 ==> outer_hello_of(header + body + behind) == Err::<
            hello::HelloView,
            crate::error::ErrorView,
        >(crate::error::ErrorView::InappropriateHandshakeMessage { got_type: header[0] }),
{
    message::messages_are_read_by_their_length(header, body, behind);
}

/// A new proxy has its keys, and has not taken a ClientHello.
pub proof fn new_proxy_has_seen_nothing<H>(keys: Seq<EchServerKey<H>>)
    ensures
        new_proxy(keys).keys == keys,
        !new_proxy(keys).done_retry,
        new_proxy(keys).state.status == ech::EchStatus::NotOffered,
        new_proxy(keys).state.context is NoContext,
{
}

} // verus!
