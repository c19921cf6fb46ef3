//! Server-side ECH (RFC 9849, section 7.1): decrypting what a client offers,
//! and the state that a handshake keeps of it.

use vstd::prelude::*;

use crate::ech_config;
use crate::ech_config::EchConfigPayload;
use crate::ech_key;
use crate::ech_key::EchServerKey;
use crate::error::{Error, PeerMisbehaved};
use crate::extensions;
use crate::hello;
use crate::hello::{
    ClientHelloPayload, EncryptedClientHello, EncryptedClientHelloOuter, Random,
};
use crate::hpke;
use crate::hpke::{
    EncapsulatedSecret, Hpke, HpkeOpener, HpkeSuite, HpkeSymmetricCipherSuite, NoOpOpener,
    StateOpener,
};
use crate::inner_hello;
use crate::message;
use crate::message::{HandshakePayload, Input, Message, MessagePayload};
use crate::outer_aad;
use crate::wire;

verus! {

/// The server's view of ECH status for the connection.
#[derive(Clone, Copy, Debug, Eq, PartialEq, Structural)]
#[non_exhaustive]
pub enum EchStatus {
    /// The client offered ECH and the server successfully decrypted the inner
    /// ClientHello.
    Accepted,
    /// The ClientHello arrived with the `ech_is_inner` (type=1) marker,
    /// indicating a split-mode frontend already decrypted and forwarded it.
    AcceptedInnerDirect,
    /// The client did not offer ECH.
    NotOffered,
    /// The client offered ECH but the server could not decrypt it (e.g. config
    /// mismatch). The handshake proceeds on the outer ClientHello and
    /// retry_configs are sent in EncryptedExtensions.
    Rejected,
}

impl Default for EchStatus {
    fn default() -> (s: EchStatus)
        ensures
            s == EchStatus::NotOffered,
    {
        EchStatus::NotOffered
    }
}

/// An offer of ECH: the extension that carries it, and what else of the outer
/// ClientHello goes into its decryption.
pub struct OfferView {
    /// The `encrypted_client_hello` extension.
    pub ext: hello::OuterView,
    /// The session ID of the outer ClientHello.
    pub session_id: Seq<u8>,
    /// The outer ClientHello with its handshake header.
    pub encoded: Seq<u8>,
    /// The extensions of the outer ClientHello.
    pub extensions: Seq<u8>,
}

/// The first implementation of the given suite.
pub open spec fn find_suite<H: Hpke>(suites: Seq<H>, want: HpkeSuite) -> Option<H>
    decreases suites.len(),
{
    if suites.len() == 0 {
        None
    } else if suites[0].implements() == want {
        Some(suites[0])
    } else {
        find_suite(suites.skip(1), want)
    }
}

/// The implementation by which a key may open an offer: the offer names the
/// key's config, and a cipher suite of that config which is implemented.
pub open spec fn chosen_suite<H: Hpke>(key: EchServerKey<H>, ext: hello::OuterView) -> Option<H> {
    match key.config@ {
        ech_config::ConfigView::Unknown { .. } => None,
        ech_config::ConfigView::V18(contents) => if contents.config_id != ext.config_id
            || !contents.symmetric_cipher_suites.contains(ext.cipher_suite) {
            None
        } else {
            find_suite(
                key.hpke_suites@,
                HpkeSuite { kem: contents.kem_id, sym: ext.cipher_suite },
            )
        },
    }
}

/// Whether an opener can be set up for an offer with the given key.
pub open spec fn sets_up<H: Hpke>(key: EchServerKey<H>, ext: hello::OuterView) -> bool {
    match chosen_suite(key, ext) {
        None => false,
        Some(suite) => H::accepts(
            suite.implements(),
            ext.enc,
            ech_key::info_of(key.config@),
            key.private_key@,
        ),
    }
}

/// Whether an opener can be set up for the offer of a ClientHello with none of
/// the given keys.
pub open spec fn none_sets_up<H: Hpke>(
    outer: hello::HelloView,
    keys: Seq<EchServerKey<H>>,
) -> bool {
    match outer.extensions.encrypted_client_hello {
        Some(hello::EchExtView::Outer(ext)) => forall|i: int|
            0 <= i < keys.len() ==> !sets_up(#[trigger] keys[i], ext),
        _ => true,
    }
}

/// What becomes of an offer.
pub enum DecryptView {
    /// It opened: the inner ClientHello, its body, and the state of the opener
    /// afterwards.
    Accepted { hello: hello::HelloView, raw: Seq<u8>, context: hpke::OpenerView },
    /// It opened, but what was in it is malformed.
    Fatal(crate::error::ErrorView),
    /// The hello is itself an inner one.
    InnerDirect,
    /// There was none.
    NotOffered,
    /// No key opened it.
    Rejected,
}

/// What one key and implementation make of an offer. An offer that they do not
/// open is rejected by them.
#[verifier::opaque]
pub open spec fn attempted<H: Hpke>(key: EchServerKey<H>, suite: H, offer: OfferView) -> DecryptView {
    let info = ech_key::info_of(key.config@);
    if !H::accepts(suite.implements(), offer.ext.enc, info, key.private_key@) {
        DecryptView::Rejected
    } else {
        let context = hpke::OpenerView::fresh(
            suite.implements(),
            offer.ext.enc,
            info,
            key.private_key@,
        );
        let aad = outer_aad::outer_aad(offer.encoded, offer.ext.payload.len() as int);
        match hpke::opened_by::<H::Opener>(context, aad, offer.ext.payload) {
            None => DecryptView::Rejected,
            Some(encoded_inner) => match inner_hello::decoded_inner(
                encoded_inner,
                offer.session_id,
                offer.extensions,
            ) {
                Err(e) => DecryptView::Fatal(crate::error::ErrorView::PeerMisbehaved(e)),
                Ok((hello, raw)) => DecryptView::Accepted {
                    hello,
                    raw,
                    context: context.after(aad, offer.ext.payload),
                },
            },
        }
    }
}

/// What one key makes of an offer.
pub open spec fn tried<H: Hpke>(key: EchServerKey<H>, offer: OfferView) -> DecryptView {
    match chosen_suite(key, offer.ext) {
        None => DecryptView::Rejected,
        Some(suite) => attempted(key, suite, offer),
    }
}

/// What the keys make of an offer: the first one that opens it decides.
pub open spec fn tried_all<H: Hpke>(keys: Seq<EchServerKey<H>>, offer: OfferView) -> DecryptView
    decreases keys.len(),
{
    if keys.len() == 0 {
        DecryptView::Rejected
    } else {
        match tried(keys[0], offer) {
            DecryptView::Rejected => tried_all(keys.skip(1), offer),
            decided => decided,
        }
    }
}

/// What becomes of the offer in an outer ClientHello, if there is one.
pub open spec fn decrypted<H: Hpke>(
    outer: hello::HelloView,
    encoded: Seq<u8>,
    extensions: Seq<u8>,
    keys: Seq<EchServerKey<H>>,
) -> DecryptView {
    match outer.extensions.encrypted_client_hello {
        None => DecryptView::NotOffered,
        Some(hello::EchExtView::Inner) => DecryptView::InnerDirect,
        Some(hello::EchExtView::Outer(ext)) => tried_all(
            keys,
            OfferView { ext, session_id: outer.session_id, encoded, extensions },
        ),
    }
}

/// Result of attempting to decrypt an ECH offer.
pub enum EchDecryptResult<O> {
    /// ECH was successfully decrypted.
    Accepted { inner_hello: ClientHelloPayload, inner_hello_raw: Vec<u8>, opener: O },
    /// HPKE decryption succeeded but the inner ClientHello is malformed.
    /// This is fatal.
    Fatal(Error),
    /// The ClientHello contains an ECH inner marker (type=1), indicating the
    /// hello IS the inner ClientHello (e.g. split-mode frontend forwarded it).
    InnerDirect,
    /// No ECH extension was present.
    NotOffered,
    /// ECH was offered but decryption failed.
    Rejected,
}

impl<O: HpkeOpener> View for EchDecryptResult<O> {
    type V = DecryptView;

    open spec fn view(&self) -> DecryptView {
        match self {
            EchDecryptResult::Accepted { inner_hello, inner_hello_raw, opener } =>
                DecryptView::Accepted {
                hello: inner_hello@,
                raw: inner_hello_raw@,
                context: opener.context(),
            },
            EchDecryptResult::Fatal(e) => DecryptView::Fatal(e@),
            EchDecryptResult::InnerDirect => DecryptView::InnerDirect,
            EchDecryptResult::NotOffered => DecryptView::NotOffered,
            EchDecryptResult::Rejected => DecryptView::Rejected,
        }
    }
}

/// Outcome of a single decryption attempt against one key.
pub enum TryDecryptResult<O> {
    HpkeFailed,
    InnerInvalid(Error),
    Decrypted(ClientHelloPayload, Vec<u8>, O),
}

impl<O: HpkeOpener> View for TryDecryptResult<O> {
    type V = DecryptView;

    open spec fn view(&self) -> DecryptView {
        match self {
            TryDecryptResult::HpkeFailed => DecryptView::Rejected,
            TryDecryptResult::InnerInvalid(e) => DecryptView::Fatal(e@),
            TryDecryptResult::Decrypted(hello, raw, opener) => DecryptView::Accepted {
                hello: hello@,
                raw: raw@,
                context: opener.context(),
            },
        }
    }
}

/// Try to decrypt an ECH offer using a specific server key and HPKE suite.
pub fn try_decrypt_ech<H: Hpke>(
    outer_hello: &ClientHelloPayload,
    outer_encoded: &[u8],
    outer_extensions_raw: &[u8],
    ech_ext: &EncryptedClientHelloOuter,
    key: &EchServerKey<H>,
    suite: H,
) -> (r: TryDecryptResult<H::Opener>)
    requires
        H::accepts(
            suite.implements(),
            ech_ext@.enc,
            ech_key::info_of(key.config@),
            key.private_key@,
        ) ==> outer_encoded@.len() >= 4,
    ensures
        r@ == attempted(
            *key,
            suite,
            OfferView {
                ext: ech_ext@,
                session_id: outer_hello.session_id@,
                encoded: outer_encoded@,
                extensions: outer_extensions_raw@,
            },
        ),
{
    reveal(attempted);
    let info = key.hpke_info();
    let enc = EncapsulatedSecret(vstd::slice::slice_to_vec(ech_ext.enc.as_slice()));
    let mut opener = match suite.setup_opener(&enc, &info, &key.private_key) {
        Ok(opener) => opener,
        Err(_) => return TryDecryptResult::HpkeFailed,
    };
    let aad = outer_aad::compute_client_hello_outer_aad(outer_encoded, ech_ext);
    let encoded_inner = match opener.open(&aad, &ech_ext.payload) {
        Ok(encoded_inner) => encoded_inner,
        Err(_) => return TryDecryptResult::HpkeFailed,
    };
    match inner_hello::decode_client_hello_inner(&encoded_inner, outer_hello, outer_extensions_raw) {
        Ok((inner_hello, inner_hello_raw)) => TryDecryptResult::Decrypted(
            inner_hello,
            inner_hello_raw,
            opener,
        ),
        Err(e) => TryDecryptResult::InnerInvalid(e),
    }
}

fn select_suite<H: Hpke>(suites: &[H], want: HpkeSuite) -> (r: Option<H>)
    ensures
        r == find_suite(suites@, want),
{
    let mut i: usize = 0;
    assert(suites@.skip(0) =~= suites@);
    while i < suites.len()
        invariant
            0 <= i <= suites@.len(),
            find_suite(suites@, want) == find_suite(suites@.skip(i as int), want),
        decreases suites@.len() - i,
    {
        if suites[i].suite() == want {
            return Some(suites[i]);
        }
        assert(suites@.skip(i as int).skip(1) =~= suites@.skip(i + 1));
        i = i + 1;
    }
    None
}

/// The implementation by which `key` may open an offer.
fn choose_suite<H: Hpke>(key: &EchServerKey<H>, ech_ext: &EncryptedClientHelloOuter) -> (r: Option<H>)
    ensures
        r == chosen_suite(*key, ech_ext@),
{
    let contents = match &key.config {
        EchConfigPayload::V18(contents) => contents,
        EchConfigPayload::Unknown { .. } => return None,
    };
    if contents.key_config.config_id != ech_ext.config_id {
        return None;
    }
    if !ech_key::contains_suite(
        &contents.key_config.symmetric_cipher_suites,
        ech_ext.cipher_suite,
    ) {
        return None;
    }
    select_suite(
        &key.hpke_suites,
        HpkeSuite { kem: contents.key_config.kem_id, sym: ech_ext.cipher_suite },
    )
}

/// Attempt to decrypt ECH from a ClientHello, trying all configured server keys.
///
/// `outer_encoded` is the ClientHello with its handshake header.
pub fn decrypt_ech<H: Hpke>(
    outer_hello: &ClientHelloPayload,
    outer_encoded: &[u8],
    outer_extensions_raw: &[u8],
    ech_keys: &[EchServerKey<H>],
) -> (r: EchDecryptResult<H::Opener>)
    requires
        outer_encoded@.len() >= 4 || none_sets_up(outer_hello@, ech_keys@),
    ensures
        r@ == decrypted(outer_hello@, outer_encoded@, outer_extensions_raw@, ech_keys@),
{
    let ech_ext = match &outer_hello.extensions.encrypted_client_hello {
        Some(EncryptedClientHello::Outer(outer)) => outer,
        Some(EncryptedClientHello::Inner) => return EchDecryptResult::InnerDirect,
        None => return EchDecryptResult::NotOffered,
    };
    let ghost offer = OfferView {
        ext: ech_ext@,
        session_id: outer_hello.session_id@,
        encoded: outer_encoded@,
        extensions: outer_extensions_raw@,
    };
    let mut i: usize = 0;
    assert(ech_keys@.skip(0) =~= ech_keys@);
    while i < ech_keys.len()
        invariant
            0 <= i <= ech_keys@.len(),
            outer_hello@.extensions.encrypted_client_hello == Some(
                hello::EchExtView::Outer(ech_ext@),
            ),
            offer == (OfferView {
                ext: ech_ext@,
                session_id: outer_hello.session_id@,
                encoded: outer_encoded@,
                extensions: outer_extensions_raw@,
            }),
            outer_encoded@.len() < 4 ==> forall|j: int|
                0 <= j < ech_keys@.len() ==> !sets_up(#[trigger] ech_keys@[j], ech_ext@),
            tried_all(ech_keys@, offer) == tried_all(ech_keys@.skip(i as int), offer),
        decreases ech_keys@.len() - i,
    {
        let key = &ech_keys[i];
        assert(ech_keys@.skip(i as int).skip(1) =~= ech_keys@.skip(i + 1));
        i = i + 1;
        let hpke_suite = match choose_suite(key, ech_ext) {
            Some(suite) => suite,
            None => continue ,
        };
        match try_decrypt_ech(
            outer_hello,
            outer_encoded,
            outer_extensions_raw,
            ech_ext,
            key,
            hpke_suite,
        ) {
            TryDecryptResult::Decrypted(inner_hello, inner_hello_raw, opener) => {
                return EchDecryptResult::Accepted { inner_hello, inner_hello_raw, opener };
            },
            TryDecryptResult::InnerInvalid(e) => {
                return EchDecryptResult::Fatal(e);
            },
            TryDecryptResult::HpkeFailed => {},
        }
    }
    EchDecryptResult::Rejected
}

/// Whether two keys differ in nothing but whether they are retry configs.
pub open spec fn same_but_retry<H>(a: EchServerKey<H>, b: EchServerKey<H>) -> bool {
    a.config@ == b.config@ && a.private_key@ == b.private_key@ && a.hpke_suites@ == b.hpke_suites@
}

/// Decryption uses every key, whether or not it is a retry config.
pub proof fn decryption_ignores_retry_flags<H: Hpke>(
    keys: Seq<EchServerKey<H>>,
    other: Seq<EchServerKey<H>>,
    offer: OfferView,
)
    requires
        keys.len() == other.len(),
        forall|i: int| 0 <= i < keys.len() ==> same_but_retry(#[trigger] keys[i], other[i]),
    ensures
        tried_all(keys, offer) == tried_all(other, offer),
    decreases keys.len(),
{
    if keys.len() > 0 {
        assert(same_but_retry(keys[0], other[0]));
        assert(tried(keys[0], offer) == tried(other[0], offer)) by {
            reveal(attempted);
        }
        assert forall|i: int| 0 <= i < keys.skip(1).len() implies same_but_retry(
            #[trigger] keys.skip(1)[i],
            other.skip(1)[i],
        ) by {
            assert(same_but_retry(keys[i + 1], other[i + 1]));
        }
        decryption_ignores_retry_flags(keys.skip(1), other.skip(1), offer);
    }
}

/// An offer is decided by the first key that opens it, however many keys that
/// do not open it stand before.
pub proof fn first_key_that_opens_decides<H: Hpke>(
    keys: Seq<EchServerKey<H>>,
    offer: OfferView,
    k: int,
)
    requires
        0 <= k < keys.len(),
        forall|i: int| 0 <= i < k ==> tried(#[trigger] keys[i], offer) is Rejected,
        !(tried(keys[k], offer) is Rejected),
    ensures
        tried_all(keys, offer) == tried(keys[k], offer),
    decreases k,
{
    if k > 0 {
        assert(tried(keys[0], offer) is Rejected);
        assert forall|i: int| 0 <= i < k - 1 implies tried(
            #[trigger] keys.skip(1)[i],
            offer,
        ) is Rejected by {
            assert(keys.skip(1)[i] == keys[i + 1]);
        }
        first_key_that_opens_decides(keys.skip(1), offer, k - 1);
    }
}

/// An offer is rejected if and only if no key opens it.
pub proof fn rejected_if_no_key_opens<H: Hpke>(keys: Seq<EchServerKey<H>>, offer: OfferView)
    ensures
        tried_all(keys, offer) is Rejected <==> forall|i: int|
            0 <= i < keys.len() ==> tried(#[trigger] keys[i], offer) is Rejected,
    decreases keys.len(),
{
    if keys.len() > 0 {
        let rest = keys.skip(1);
        rejected_if_no_key_opens(rest, offer);
        assert forall|i: int| 0 <= i < rest.len() implies #[trigger] rest[i] == keys[i + 1] by {}
        if tried_all(keys, offer) is Rejected {
            assert forall|i: int| 0 <= i < keys.len() implies tried(
                #[trigger] keys[i],
                offer,
            ) is Rejected by {
                if i > 0 {
                    assert(tried(rest[i - 1], offer) is Rejected);
                }
            }
        } else if tried(keys[0], offer) is Rejected {
            let i = choose|i: int|
                0 <= i < rest.len() && !(tried(#[trigger] rest[i], offer) is Rejected);
            assert(!(tried(keys[i + 1], offer) is Rejected));
        }
    }
}

/// What is accepted is the body of an inner ClientHello.
pub proof fn accepted_hello_is_inner<H: Hpke>(keys: Seq<EchServerKey<H>>, offer: OfferView)
    ensures
        tried_all(keys, offer) matches DecryptView::Accepted { hello: h, raw, context }
            ==> hello::parsed_hello(raw) == Some(h) && inner_hello::is_inner(h),
    decreases keys.len(),
{
    if keys.len() > 0 {
        accepted_hello_is_inner(keys.skip(1), offer);
        reveal(attempted);
    }
}

/// What a client sealed is what the server gets: if the key's opener finds an
/// encoded inner ClientHello under the payload, the offer is accepted with that
/// ClientHello, under the session ID of the outer one.
pub proof fn sealed_hello_is_accepted<H: Hpke>(
    key: EchServerKey<H>,
    offer: OfferView,
    inner: hello::HelloView,
    padding: nat,
)
    requires
        hello::hello_valid(inner),
        inner_hello::is_inner(inner),
        inner.session_id == offer.session_id,
        sets_up(key, offer.ext),
        hpke::opened_by::<H::Opener>(
            hpke::OpenerView::fresh(
                (chosen_suite(key, offer.ext)->0).implements(),
                offer.ext.enc,
                ech_key::info_of(key.config@),
                key.private_key@,
            ),
            outer_aad::outer_aad(offer.encoded, offer.ext.payload.len() as int),
            offer.ext.payload,
        ) == Some(
            hello::hello_bytes(hello::HelloView { session_id: Seq::empty(), ..inner })
                + wire::zeros(padding),
        ),
    ensures
        tried(key, offer) matches DecryptView::Accepted { hello: h, raw, context } && h == inner
            && raw == hello::hello_bytes(inner),
{
    reveal(attempted);
    inner_hello::inner_hello_round_trip(inner, padding, offer.extensions);
}

/// What a client sealed is what the server gets, whatever extensions the inner
/// ClientHello has and refers to: if the key's opener finds its encoding under
/// the payload, the offer is accepted with that ClientHello.
pub proof fn encoded_hello_is_accepted<H: Hpke>(
    key: EchServerKey<H>,
    offer: OfferView,
    p: hello::PrefixView,
    list: Seq<extensions::RawExtension>,
    full: Seq<extensions::RawExtension>,
    padding: nat,
)
    requires
        inner_hello::encodes_inner(p, list, full, offer.session_id, offer.extensions),
        sets_up(key, offer.ext),
        hpke::opened_by::<H::Opener>(
            hpke::OpenerView::fresh(
                (chosen_suite(key, offer.ext)->0).implements(),
                offer.ext.enc,
                ech_key::info_of(key.config@),
                key.private_key@,
            ),
            outer_aad::outer_aad(offer.encoded, offer.ext.payload.len() as int),
            offer.ext.payload,
        ) == Some(inner_hello::encoded_inner(p, list, padding)),
    ensures
        ({
            let body = inner_hello::restored_inner(p, full, offer.session_id);
            tried(key, offer) matches DecryptView::Accepted { hello: h, raw, context } && raw
                == body && hello::parsed_hello(body) == Some(h)
        }),
{
    reveal(attempted);
    inner_hello::encoded_hello_is_decoded(
        p,
        list,
        full,
        padding,
        offer.session_id,
        offer.extensions,
    );
}

/// Server-side ECH state carried across the handshake.
pub struct EchServerState<O> {
    /// The random from the inner ClientHello, needed for confirmation computation.
    pub inner_random: Random,
    /// HPKE opener context, kept alive for decrypting a second ClientHello after HRR.
    pub opener: StateOpener<O>,
    /// Retry configs to send on rejection.
    pub retry_configs: Vec<EchConfigPayload>,
    /// Whether ECH was accepted or rejected.
    pub status: EchStatus,
    /// The config_id from the outer ClientHello (for validating the second after HRR).
    pub config_id: Option<u8>,
    /// The cipher suite from the outer ClientHello (for validating the second after HRR).
    pub cipher_suite: Option<HpkeSymmetricCipherSuite>,
}

/// The value of an [`EchServerState`].
#[verifier::ext_equal]
pub struct StateView {
    pub inner_random: Seq<u8>,
    pub context: hpke::OpenerView,
    pub retry_configs: Seq<ech_config::ConfigView>,
    pub status: EchStatus,
    pub config_id: Option<u8>,
    pub cipher_suite: Option<HpkeSymmetricCipherSuite>,
}

impl<O: HpkeOpener> View for EchServerState<O> {
    type V = StateView;

    open spec fn view(&self) -> StateView {
        StateView {
            inner_random: self.inner_random.0@,
            context: self.opener.context(),
            retry_configs: ech_config::config_views(self.retry_configs@),
            status: self.status,
            config_id: self.config_id,
            cipher_suite: self.cipher_suite,
        }
    }
}

impl StateView {
    /// The state of a handshake without an HPKE context.
    pub open spec fn idle(
        status: EchStatus,
        inner_random: Seq<u8>,
        retry_configs: Seq<ech_config::ConfigView>,
    ) -> StateView {
        StateView {
            inner_random,
            context: hpke::OpenerView::NoContext,
            retry_configs,
            status,
            config_id: None,
            cipher_suite: None,
        }
    }
}

impl<O: HpkeOpener> EchServerState<O> {
    /// Build state for an accepted ECH handshake.
    pub fn accepted(
        inner_random: Random,
        opener: O,
        retry_configs: Vec<EchConfigPayload>,
        config_id: Option<u8>,
        cipher_suite: Option<HpkeSymmetricCipherSuite>,
    ) -> (s: EchServerState<O>)
        ensures
            s@ == (StateView {
                inner_random: inner_random.0@,
                context: opener.context(),
                retry_configs: ech_config::config_views(retry_configs@),
                status: EchStatus::Accepted,
                config_id,
                cipher_suite,
            }),
    {
        EchServerState {
            inner_random,
            opener: StateOpener::Live(opener),
            retry_configs,
            status: EchStatus::Accepted,
            config_id,
            cipher_suite,
        }
    }

    /// Build state for a rejected ECH handshake.
    pub fn rejected(retry_configs: Vec<EchConfigPayload>) -> (s: EchServerState<O>)
        ensures
            s@ == StateView::idle(
                EchStatus::Rejected,
                wire::zeros(32),
                ech_config::config_views(retry_configs@),
            ),
    {
        let zeros: [u8; 32] = [0; 32];
        assert(zeros@ =~= wire::zeros(32));
        EchServerState {
            inner_random: Random(zeros),
            opener: StateOpener::NoOp(NoOpOpener),
            retry_configs,
            status: EchStatus::Rejected,
            config_id: None,
            cipher_suite: None,
        }
    }

    /// Build state for an inner-direct handshake (split-mode or type=1 marker).
    pub fn inner_direct(inner_random: Random) -> (s: EchServerState<O>)
        ensures
            s@ == StateView::idle(
                EchStatus::AcceptedInnerDirect,
                inner_random.0@,
                Seq::empty(),
            ),
    {
        let retry_configs: Vec<EchConfigPayload> = Vec::new();
        assert(ech_config::config_views(retry_configs@) =~= Seq::empty());
        EchServerState {
            inner_random,
            opener: StateOpener::NoOp(NoOpOpener),
            retry_configs,
            status: EchStatus::AcceptedInnerDirect,
            config_id: None,
            cipher_suite: None,
        }
    }
}

/// Outcome of ECH resolution on a ClientHello.
pub enum EchOffer<O> {
    /// First ClientHello: ECH was resolved. Use `inner_input` (if present)
    /// instead of the outer, and install the given state.
    Resolved { inner_input: Option<Input>, state: EchServerState<O> },
    /// Second ClientHello (HRR): use this inner input. The existing
    /// `ech_state` was updated in place (inner_random set).
    ResolvedHrr(Input),
    /// No ECH processing needed.
    NotNeeded,
}

/// The value of an [`EchOffer`].
pub enum EchOfferView {
    Resolved { inner_input: Option<message::InputView>, state: StateView },
    ResolvedHrr(message::InputView),
    NotNeeded,
}

impl<O: HpkeOpener> View for EchOffer<O> {
    type V = EchOfferView;

    open spec fn view(&self) -> EchOfferView {
        match self {
            EchOffer::Resolved { inner_input, state } => EchOfferView::Resolved {
                inner_input: match inner_input {
                    Some(input) => Some(input@),
                    None => None,
                },
                state: state@,
            },
            EchOffer::ResolvedHrr(input) => EchOfferView::ResolvedHrr(input@),
            EchOffer::NotNeeded => EchOfferView::NotNeeded,
        }
    }
}

/// The inner ClientHello as a message in place of the outer one.
pub open spec fn inner_input(
    outer: message::InputView,
    inner: hello::HelloView,
    raw: Seq<u8>,
) -> message::InputView {
    message::InputView {
        payload: message::PayloadView::Handshake {
            parsed: message::HandshakeView::ClientHello(inner),
            encoded: inner_hello::hello_message(raw),
        },
        ..outer
    }
}

/// What becomes of the first ClientHello.
pub open spec fn resolved_first<H: Hpke>(
    input: message::InputView,
    keys: Seq<EchServerKey<H>>,
) -> Result<EchOfferView, crate::error::ErrorView> {
    match message::client_hello_in(input.payload) {
        Err(e) => Err(e),
        Ok((outer, encoded)) => if outer.extensions.encrypted_client_hello == Some(
            hello::EchExtView::Inner,
        ) {
            Ok(
                EchOfferView::Resolved {
                    inner_input: None,
                    state: StateView::idle(
                        EchStatus::AcceptedInnerDirect,
                        outer.random,
                        Seq::empty(),
                    ),
                },
            )
        } else if keys.len() == 0 || outer.extensions.encrypted_client_hello is None {
            Ok(EchOfferView::NotNeeded)
        } else {
            match inner_hello::message_extensions(encoded) {
                None => Err(
                    crate::error::ErrorView::PeerMisbehaved(
                        PeerMisbehaved::InvalidEchClientHelloInner,
                    ),
                ),
                Some(extensions) => resolved_offer(
                    input,
                    outer,
                    decrypted(outer, encoded, extensions, keys),
                    ech_key::retry_configs_of(keys),
                ),
            }
        },
    }
}

/// What becomes of the first ClientHello, given what became of its offer.
pub open spec fn resolved_offer(
    input: message::InputView,
    outer: hello::HelloView,
    result: DecryptView,
    retry_configs: Seq<ech_config::ConfigView>,
) -> Result<EchOfferView, crate::error::ErrorView> {
    match result {
        DecryptView::Fatal(e) => Err(e),
        DecryptView::Accepted { hello, raw, context } => Ok(
            EchOfferView::Resolved {
                inner_input: Some(inner_input(input, hello, raw)),
                state: StateView {
                    inner_random: hello.random,
                    context,
                    retry_configs,
                    status: EchStatus::Accepted,
                    config_id: match outer.extensions.encrypted_client_hello {
                        Some(hello::EchExtView::Outer(ext)) => Some(ext.config_id),
                        _ => None,
                    },
                    cipher_suite: match outer.extensions.encrypted_client_hello {
                        Some(hello::EchExtView::Outer(ext)) => Some(ext.cipher_suite),
                        _ => None,
                    },
                },
            },
        ),
        DecryptView::Rejected => Ok(
            EchOfferView::Resolved {
                inner_input: None,
                state: StateView::idle(EchStatus::Rejected, wire::zeros(32), retry_configs),
            },
        ),
        DecryptView::NotOffered => Ok(EchOfferView::NotNeeded),
        DecryptView::InnerDirect => Ok(EchOfferView::NotNeeded),
    }
}

/// The offer of a second ClientHello, if it goes with the first one: it must
/// bring no encapsulated secret, and use the same config and cipher suite.
pub open spec fn hrr_offer(
    ext: Option<hello::EchExtView>,
    config_id: Option<u8>,
    cipher_suite: Option<HpkeSymmetricCipherSuite>,
) -> Result<hello::OuterView, PeerMisbehaved> {
    match ext {
        None => Err(PeerMisbehaved::MissingEchExtension),
        Some(hello::EchExtView::Inner) => Err(PeerMisbehaved::InvalidEchClientHelloInner),
        Some(hello::EchExtView::Outer(outer)) => if outer.enc.len() != 0 {
            Err(PeerMisbehaved::InvalidEchClientHelloInner)
        } else if config_id is Some && config_id != Some(outer.config_id) {
            Err(PeerMisbehaved::EchHrrMismatch)
        } else if cipher_suite is Some && cipher_suite != Some(outer.cipher_suite) {
            Err(PeerMisbehaved::EchHrrMismatch)
        } else {
            Ok(outer)
        },
    }
}

/// The inner ClientHello in a second ClientHello, which the opener of the first
/// one opens.
#[verifier::opaque]
pub open spec fn hrr_decrypted<O: HpkeOpener>(
    context: hpke::OpenerView,
    outer: hello::HelloView,
    encoded: Seq<u8>,
    extensions: Seq<u8>,
    config_id: Option<u8>,
    cipher_suite: Option<HpkeSymmetricCipherSuite>,
) -> Result<(hello::HelloView, Seq<u8>), PeerMisbehaved> {
    match hrr_offer(outer.extensions.encrypted_client_hello, config_id, cipher_suite) {
        Err(e) => Err(e),
        Ok(ext) => match hpke::opened_by::<O>(
            context,
            outer_aad::outer_aad(encoded, ext.payload.len() as int),
            ext.payload,
        ) {
            None => Err(PeerMisbehaved::EchHrrDecryptionFailed),
            Some(encoded_inner) => inner_hello::decoded_inner(
                encoded_inner,
                outer.session_id,
                extensions,
            ),
        },
    }
}

/// The state of the opener after a second ClientHello.
pub open spec fn hrr_context(
    context: hpke::OpenerView,
    outer: hello::HelloView,
    encoded: Seq<u8>,
    config_id: Option<u8>,
    cipher_suite: Option<HpkeSymmetricCipherSuite>,
) -> hpke::OpenerView {
    match hrr_offer(outer.extensions.encrypted_client_hello, config_id, cipher_suite) {
        Err(_) => context,
        Ok(ext) => context.after(
            outer_aad::outer_aad(encoded, ext.payload.len() as int),
            ext.payload,
        ),
    }
}

/// What becomes of a second ClientHello where ECH was accepted, and the state
/// afterwards.
pub open spec fn resolved_hrr<O: HpkeOpener>(
    input: message::InputView,
    outer: hello::HelloView,
    encoded: Seq<u8>,
    state: StateView,
) -> (Result<EchOfferView, crate::error::ErrorView>, StateView) {
    if outer.extensions.encrypted_client_hello == Some(hello::EchExtView::Inner) {
        (Ok(EchOfferView::NotNeeded), StateView { inner_random: outer.random, ..state })
    } else {
        match inner_hello::message_extensions(encoded) {
            None => (
                Err(
                    crate::error::ErrorView::PeerMisbehaved(
                        PeerMisbehaved::InvalidEchClientHelloInner,
                    ),
                ),
                state,
            ),
            Some(extensions) => {
                let context = hrr_context(
                    state.context,
                    outer,
                    encoded,
                    state.config_id,
                    state.cipher_suite,
                );
                match hrr_decrypted::<O>(
                    state.context,
                    outer,
                    encoded,
                    extensions,
                    state.config_id,
                    state.cipher_suite,
                ) {
                    Err(e) => (
                        Err(crate::error::ErrorView::PeerMisbehaved(e)),
                        StateView { context, ..state },
                    ),
                    Ok((inner, raw)) => (
                        Ok(EchOfferView::ResolvedHrr(inner_input(input, inner, raw))),
                        StateView { context, inner_random: inner.random, ..state },
                    ),
                }
            },
        }
    }
}

/// What becomes of a second ClientHello, and the state afterwards. It is only
/// looked into if ECH was accepted.
pub open spec fn resolved_second<O: HpkeOpener>(input: message::InputView, state: StateView) -> (
    Result<EchOfferView, crate::error::ErrorView>,
    StateView,
) {
    match message::client_hello_in(input.payload) {
        Err(e) => (Err(e), state),
        Ok((outer, encoded)) => match state.status {
            EchStatus::Accepted => resolved_hrr::<O>(input, outer, encoded, state),
            EchStatus::AcceptedInnerDirect => resolved_hrr::<O>(input, outer, encoded, state),
            _ => (Ok(EchOfferView::NotNeeded), state),
        },
    }
}

/// Whether the opener that `after` is the state of was set up as that of `before`,
/// and has been asked to open what that one was, and perhaps more.
pub open spec fn continues(before: hpke::OpenerView, after: hpke::OpenerView) -> bool {
    match (before, after) {
        (hpke::OpenerView::NoContext, hpke::OpenerView::NoContext) => true,
        (
            hpke::OpenerView::Context { suite: s, enc: e, info: i, private_key: k, history: h },
            hpke::OpenerView::Context { suite, enc, info, private_key, history },
        ) => suite == s && enc == e && info == i && private_key == k && h.is_prefix_of(history),
        _ => false,
    }
}

/// A second ClientHello changes nothing of the state but the random of the
/// inner ClientHello and how far the opener is, and the opener stays the one
/// that was set up for the first.
pub proof fn second_hello_keeps_the_context<O: HpkeOpener>(
    input: message::InputView,
    state: StateView,
)
    ensures
        ({
            let after = resolved_second::<O>(input, state).1;
            &&& continues(state.context, after.context)
            &&& after.status == state.status
            &&& after.config_id == state.config_id
            &&& after.cipher_suite == state.cipher_suite
            &&& after.retry_configs == state.retry_configs
        }),
{
    assert(continues(state.context, state.context));
    assert forall|aad: Seq<u8>, ciphertext: Seq<u8>|
        continues(state.context, #[trigger] state.context.after(aad, ciphertext)) by {
        if let hpke::OpenerView::Context { history, .. } = state.context {
            assert(history =~= history.push((aad, ciphertext)).take(history.len() as int));
        }
    }
}

/// Where the first ClientHello was accepted, the opener was set up with one of
/// the keys and the secret that the client encapsulated, and has opened the
/// client's payload and nothing else.
pub proof fn accepted_state_holds_the_opener<H: Hpke>(
    keys: Seq<EchServerKey<H>>,
    offer: OfferView,
)
    ensures
        tried_all(keys, offer) matches DecryptView::Accepted { hello, raw, context }
            ==> exists|k: int|
            0 <= k < keys.len() && opened_with(#[trigger] keys[k], offer, context),
    decreases keys.len(),
{
    if keys.len() > 0 {
        if tried(keys[0], offer) is Rejected {
            let rest = keys.skip(1);
            accepted_state_holds_the_opener(rest, offer);
            if let DecryptView::Accepted { hello, raw, context } = tried_all(keys, offer) {
                let k = choose|k: int|
                    0 <= k < rest.len() && opened_with(#[trigger] rest[k], offer, context);
                assert(opened_with(keys[k + 1], offer, context));
            }
        } else if let DecryptView::Accepted { hello, raw, context } = tried(keys[0], offer) {
            reveal(attempted);
            assert(opened_with(keys[0], offer, context));
        }
    }
}

/// Whether an opener in the given state was set up with `key` for `offer` and
/// has opened its payload.
pub open spec fn opened_with<H: Hpke>(
    key: EchServerKey<H>,
    offer: OfferView,
    context: hpke::OpenerView,
) -> bool {
    chosen_suite(key, offer.ext) matches Some(suite) && context == hpke::OpenerView::fresh(
        suite.implements(),
        offer.ext.enc,
        ech_key::info_of(key.config@),
        key.private_key@,
    ).after(
        outer_aad::outer_aad(offer.encoded, offer.ext.payload.len() as int),
        offer.ext.payload,
    )
}

/// The same of a second ClientHello: if it goes with the first one, and the opener
/// of the first one finds the encoding of an inner ClientHello under the payload,
/// it is decrypted to that ClientHello.
pub proof fn second_encoded_hello_is_decrypted<O: HpkeOpener>(
    context: hpke::OpenerView,
    outer: hello::HelloView,
    encoded: Seq<u8>,
    extensions: Seq<u8>,
    config_id: Option<u8>,
    cipher_suite: Option<HpkeSymmetricCipherSuite>,
    p: hello::PrefixView,
    list: Seq<extensions::RawExtension>,
    full: Seq<extensions::RawExtension>,
    padding: nat,
)
    requires
        inner_hello::encodes_inner(p, list, full, outer.session_id, extensions),
        hrr_offer(outer.extensions.encrypted_client_hello, config_id, cipher_suite) matches Ok(ext)
            && hpke::opened_by::<O>(
            context,
            outer_aad::outer_aad(encoded, ext.payload.len() as int),
            ext.payload,
        ) == Some(inner_hello::encoded_inner(p, list, padding)),
    ensures
        ({
            let body = inner_hello::restored_inner(p, full, outer.session_id);
            hrr_decrypted::<O>(
                context,
                outer,
                encoded,
                extensions,
                config_id,
                cipher_suite,
            ) == Ok::<(hello::HelloView, Seq<u8>), PeerMisbehaved>(
                (hello::parsed_hello(body)->0, body),
            )
        }),
{
    reveal(hrr_decrypted);
    inner_hello::encoded_hello_is_decoded(p, list, full, padding, outer.session_id, extensions);
}

/// Build an `Input` wrapping a decrypted inner ClientHello.
pub fn make_inner_input(
    outer_input: &Input,
    inner_hello: ClientHelloPayload,
    inner_hello_raw: &[u8],
) -> (input: Input)
    ensures
        input@ == inner_input(outer_input@, inner_hello@, inner_hello_raw@),
{
    Input {
        message: Message {
            version: outer_input.message.version,
            payload: MessagePayload::Handshake {
                encoded: inner_hello::encode_inner_hello(inner_hello_raw),
                parsed: HandshakePayload::ClientHello(inner_hello),
            },
        },
        aligned_handshake: outer_input.aligned_handshake,
    }
}

/// Decrypt the second ClientHello's ECH payload after a HelloRetryRequest.
///
/// The second ClientHello reuses the HPKE context from the first. A decryption
/// failure here is fatal (unlike the first ClientHello, where it's non-fatal).
pub fn decrypt_ech_hrr<O: HpkeOpener>(
    outer_hello: &ClientHelloPayload,
    outer_encoded: &[u8],
    outer_extensions_raw: &[u8],
    opener: &mut O,
    expected_config_id: Option<u8>,
    expected_cipher_suite: Option<HpkeSymmetricCipherSuite>,
) -> (r: Result<(ClientHelloPayload, Vec<u8>), Error>)
    requires
        outer_encoded@.len() >= 4 || hrr_offer(
            outer_hello@.extensions.encrypted_client_hello,
            expected_config_id,
            expected_cipher_suite,
        ) is Err,
    ensures
        match r {
            Ok((h, raw)) => hrr_decrypted::<O>(
                old(opener).context(),
                outer_hello@,
                outer_encoded@,
                outer_extensions_raw@,
                expected_config_id,
                expected_cipher_suite,
            ) == Ok::<(hello::HelloView, Seq<u8>), PeerMisbehaved>((h@, raw@)),
            Err(e) => hrr_decrypted::<O>(
                old(opener).context(),
                outer_hello@,
                outer_encoded@,
                outer_extensions_raw@,
                expected_config_id,
                expected_cipher_suite,
            ) matches Err(x) && e@ == crate::error::ErrorView::PeerMisbehaved(x),
        },
        final(opener).context() == hrr_context(
            old(opener).context(),
            outer_hello@,
            outer_encoded@,
            expected_config_id,
            expected_cipher_suite,
        ),
{
    reveal(hrr_decrypted);
    let ech_ext = match &outer_hello.extensions.encrypted_client_hello {
        Some(EncryptedClientHello::Outer(outer)) => outer,
        None => return Err(Error::PeerMisbehaved(PeerMisbehaved::MissingEchExtension)),
        Some(EncryptedClientHello::Inner) => return Err(
            Error::PeerMisbehaved(PeerMisbehaved::InvalidEchClientHelloInner),
        ),
    };

    // The second ClientHello's ECH must have empty enc.
    if ech_ext.enc.len() != 0 {
        return Err(Error::PeerMisbehaved(PeerMisbehaved::InvalidEchClientHelloInner));
    }
    // Config ID and cipher suite must match the first ClientHello.
    if let Some(expected) = expected_config_id {
        if ech_ext.config_id != expected {
            return Err(Error::PeerMisbehaved(PeerMisbehaved::EchHrrMismatch));
        }
    }
    if let Some(expected) = expected_cipher_suite {
        if ech_ext.cipher_suite != expected {
            return Err(Error::PeerMisbehaved(PeerMisbehaved::EchHrrMismatch));
        }
    }

    let aad = outer_aad::compute_client_hello_outer_aad(outer_encoded, ech_ext);
    let encoded_inner = match opener.open(&aad, &ech_ext.payload) {
        Ok(encoded_inner) => encoded_inner,
        Err(_) => return Err(Error::PeerMisbehaved(PeerMisbehaved::EchHrrDecryptionFailed)),
    };
    inner_hello::decode_client_hello_inner(&encoded_inner, outer_hello, outer_extensions_raw)
}

/// Handle ECH on the second ClientHello after HRR.
///
/// Decrypts using the saved HPKE opener, updating `ech_state` in place.
pub fn resolve_ech_hrr<O: HpkeOpener>(
    input: &Input,
    outer_hello: &ClientHelloPayload,
    outer_encoded: &[u8],
    ech_state: &mut EchServerState<O>,
) -> (r: Result<EchOffer<O>, Error>)
    ensures
        match r {
            Ok(offer) => resolved_hrr::<O>(input@, outer_hello@, outer_encoded@, old(ech_state)@).0
                == Ok::<EchOfferView, crate::error::ErrorView>(offer@),
            Err(e) => resolved_hrr::<O>(input@, outer_hello@, outer_encoded@, old(ech_state)@).0
                == Err::<EchOfferView, crate::error::ErrorView>(e@),
        },
        final(ech_state)@ == resolved_hrr::<O>(
            input@,
            outer_hello@,
            outer_encoded@,
            old(ech_state)@,
        ).1,
{
    // Inner-direct on HRR: no decryption needed, just update inner_random.
    if let Some(EncryptedClientHello::Inner) = &outer_hello.extensions.encrypted_client_hello {
        ech_state.inner_random = outer_hello.random;
        return Ok(EchOffer::NotNeeded);
    }
    let outer_extensions_raw = inner_hello::extract_extensions_from_client_hello(outer_encoded)?;

    let config_id = ech_state.config_id;
    let cipher_suite = ech_state.cipher_suite;
    assert(hrr_decrypted::<StateOpener<O>>(
        ech_state.opener.context(),
        outer_hello@,
        outer_encoded@,
        outer_extensions_raw@,
        config_id,
        cipher_suite,
    ) == hrr_decrypted::<O>(
        ech_state.opener.context(),
        outer_hello@,
        outer_encoded@,
        outer_extensions_raw@,
        config_id,
        cipher_suite,
    )) by {
        reveal(hrr_decrypted);
    }
    let (inner_hello, inner_hello_raw) = decrypt_ech_hrr(
        outer_hello,
        outer_encoded,
        outer_extensions_raw,
        &mut ech_state.opener,
        config_id,
        cipher_suite,
    )?;
    ech_state.inner_random = inner_hello.random;
    Ok(EchOffer::ResolvedHrr(make_inner_input(input, inner_hello, &inner_hello_raw)))
}

/// Resolve ECH on a ClientHello, handling both first and second (HRR) attempts.
///
/// On the first ClientHello, attempts ECH decryption using the server's
/// configured keys. On the second ClientHello after HRR, decrypts using the
/// saved HPKE opener context (mutating `ech_state` in place).
pub fn resolve_ech<H: Hpke>(
    input: &Input,
    ech_keys: &[EchServerKey<H>],
    ech_state: Option<&mut EchServerState<H::Opener>>,
    done_retry: bool,
) -> (r: Result<EchOffer<H::Opener>, Error>)
    ensures
        !done_retry ==> match r {
            Ok(offer) => resolved_first(input@, ech_keys@) == Ok::<
                EchOfferView,
                crate::error::ErrorView,
            >(offer@),
            Err(e) => resolved_first(input@, ech_keys@) == Err::<
                EchOfferView,
                crate::error::ErrorView,
            >(e@),
        },
        done_retry && ech_state is None ==> match r {
            Ok(offer) => message::client_hello_in(input@.payload) is Ok && offer@
                == EchOfferView::NotNeeded,
            Err(e) => message::client_hello_in(input@.payload) matches Err(x) && e@ == x,
        },
        ech_state matches Some(state) ==> if done_retry {
            &&& final(state)@ == resolved_second::<H::Opener>(input@, state@).1
            &&& match r {
                Ok(offer) => resolved_second::<H::Opener>(input@, state@).0 == Ok::<
                    EchOfferView,
                    crate::error::ErrorView,
                >(offer@),
                Err(e) => resolved_second::<H::Opener>(input@, state@).0 == Err::<
                    EchOfferView,
                    crate::error::ErrorView,
                >(e@),
            }
        } else {
            final(state)@ == state@
        },
{
    let (outer_hello, outer_encoded) = message::require_client_hello(&input.message.payload)?;

    // Second ClientHello after HRR with accepted ECH: decrypt using saved opener.
    if done_retry {
        if let Some(state) = ech_state {
            match state.status {
                EchStatus::Accepted | EchStatus::AcceptedInnerDirect => {
                    return resolve_ech_hrr(input, outer_hello, outer_encoded, state);
                },
                _ => {},
            }
        }
        return Ok(EchOffer::NotNeeded);
    }
    // Check for inner marker (split-mode support).

    if let Some(EncryptedClientHello::Inner) = &outer_hello.extensions.encrypted_client_hello {
        return Ok(
            EchOffer::Resolved {
                inner_input: None,
                state: EchServerState::inner_direct(outer_hello.random),
            },
        );
    }
    if ech_keys.len() == 0 || outer_hello.extensions.encrypted_client_hello.is_none() {
        return Ok(EchOffer::NotNeeded);
    }
    let outer_extensions_raw = inner_hello::extract_extensions_from_client_hello(outer_encoded)?;

    let ech_result = decrypt_ech(outer_hello, outer_encoded, outer_extensions_raw, ech_keys);
    let retry_configs = ech_key::collect_retry_configs(ech_keys);

    match ech_result {
        EchDecryptResult::Fatal(e) => Err(e),
        EchDecryptResult::Accepted { inner_hello, inner_hello_raw, opener } => {
            let (config_id, cipher_suite) = match &outer_hello.extensions.encrypted_client_hello {
                Some(EncryptedClientHello::Outer(o)) => (Some(o.config_id), Some(o.cipher_suite)),
                _ => (None, None),
            };
            let random = inner_hello.random;
            Ok(
                EchOffer::Resolved {
                    inner_input: Some(make_inner_input(input, inner_hello, &inner_hello_raw)),
                    state: EchServerState::accepted(
                        random,
                        opener,
                        retry_configs,
                        config_id,
                        cipher_suite,
                    ),
                },
            )
        },
        EchDecryptResult::Rejected => Ok(
            EchOffer::Resolved {
                inner_input: None,
                state: EchServerState::rejected(retry_configs),
            },
        ),
        EchDecryptResult::NotOffered | EchDecryptResult::InnerDirect => Ok(EchOffer::NotNeeded),
    }
}

/// What a ClientHello is replaced by, given what became of it.
pub open spec fn replacement(r: Result<EchOfferView, crate::error::ErrorView>) -> Result<
    Option<message::InputView>,
    crate::error::ErrorView,
> {
    match r {
        Err(e) => Err(e),
        Ok(EchOfferView::Resolved { inner_input, .. }) => Ok(inner_input),
        Ok(EchOfferView::ResolvedHrr(input)) => Ok(Some(input)),
        Ok(EchOfferView::NotNeeded) => Ok(None),
    }
}

/// The state after a first ClientHello.
pub open spec fn state_after_first(
    r: Result<EchOfferView, crate::error::ErrorView>,
    state: StateView,
) -> StateView {
    match r {
        Ok(EchOfferView::Resolved { state: next, .. }) => next,
        _ => state,
    }
}

impl<O: HpkeOpener> EchServerState<O> {
    /// The state of a handshake that has not seen a ClientHello.
    pub fn new() -> (s: EchServerState<O>)
        ensures
            s@ == StateView::idle(EchStatus::NotOffered, wire::zeros(32), Seq::empty()),
    {
        let zeros: [u8; 32] = [0; 32];
        let retry_configs: Vec<EchConfigPayload> = Vec::new();
        assert(zeros@ =~= wire::zeros(32));
        assert(ech_config::config_views(retry_configs@) =~= Seq::empty());
        EchServerState {
            inner_random: Random(zeros),
            opener: StateOpener::NoOp(NoOpOpener),
            retry_configs,
            status: EchStatus::NotOffered,
            config_id: None,
            cipher_suite: None,
        }
    }

    /// Takes in the first ClientHello, and returns the inner one if there is one.
    pub fn resolve<H: Hpke<Opener = O>>(&mut self, ech_keys: &[EchServerKey<H>], input: &Input) -> (r:
        Result<Option<Input>, Error>)
        ensures
            match r {
                Ok(Some(inner)) => replacement(resolved_first(input@, ech_keys@)) == Ok::<
                    Option<message::InputView>,
                    crate::error::ErrorView,
                >(Some(inner@)),
                Ok(None) => replacement(resolved_first(input@, ech_keys@)) == Ok::<
                    Option<message::InputView>,
                    crate::error::ErrorView,
                >(None),
                Err(e) => replacement(resolved_first(input@, ech_keys@)) == Err::<
                    Option<message::InputView>,
                    crate::error::ErrorView,
                >(e@),
            },
            final(self)@ == state_after_first(resolved_first(input@, ech_keys@), old(self)@),
    {
        match resolve_ech(input, ech_keys, None, false)? {
            EchOffer::Resolved { inner_input, state } => {
                *self = state;
                Ok(inner_input)
            },
            EchOffer::ResolvedHrr(inner) => Ok(Some(inner)),
            EchOffer::NotNeeded => Ok(None),
        }
    }

    /// Takes in the second ClientHello, and returns the inner one if there is one.
    pub fn resolve_retry(&mut self, input: &Input) -> (r: Result<Option<Input>, Error>)
        ensures
            match r {
                Ok(Some(inner)) => replacement(resolved_second::<O>(input@, old(self)@).0) == Ok::<
                    Option<message::InputView>,
                    crate::error::ErrorView,
                >(Some(inner@)),
                Ok(None) => replacement(resolved_second::<O>(input@, old(self)@).0) == Ok::<
                    Option<message::InputView>,
                    crate::error::ErrorView,
                >(None),
                Err(e) => replacement(resolved_second::<O>(input@, old(self)@).0) == Err::<
                    Option<message::InputView>,
                    crate::error::ErrorView,
                >(e@),
            },
            final(self)@ == resolved_second::<O>(input@, old(self)@).1,
    {
        let (outer_hello, outer_encoded) = message::require_client_hello(&input.message.payload)?;
        match self.status {
            EchStatus::Accepted | EchStatus::AcceptedInnerDirect => {
                match resolve_ech_hrr(input, outer_hello, outer_encoded, self)? {
                    EchOffer::Resolved { inner_input, .. } => Ok(inner_input),
                    EchOffer::ResolvedHrr(inner) => Ok(Some(inner)),
                    EchOffer::NotNeeded => Ok(None),
                }
            },
            _ => Ok(None),
        }
    }
}

/// Which implementation a key opens an offer with: the first of the offer's cipher
/// suite and the config's KEM, if the offer names the config and a cipher suite of
/// it.
pub proof fn key_is_used_for_offers_to_its_config<H: Hpke>(
    key: EchServerKey<H>,
    ext: hello::OuterView,
    contents: ech_config::ContentsView,
    m: int,
    n: int,
)
    requires
        key.config@ == ech_config::ConfigView::V18(contents),
        contents.config_id == ext.config_id,
        0 <= m < contents.symmetric_cipher_suites.len(),
        contents.symmetric_cipher_suites[m] == ext.cipher_suite,
        0 <= n < key.hpke_suites@.len(),
        key.hpke_suites@[n].implements() == (HpkeSuite {
            kem: contents.kem_id,
            sym: ext.cipher_suite,
        }),
        forall|i: int|
            0 <= i < n ==> (#[trigger] key.hpke_suites@[i]).implements() != (HpkeSuite {
                kem: contents.kem_id,
                sym: ext.cipher_suite,
            }),
    ensures
        chosen_suite(key, ext) == Some(key.hpke_suites@[n]),
{
    lemma_first_suite_is_found(
        key.hpke_suites@,
        HpkeSuite { kem: contents.kem_id, sym: ext.cipher_suite },
        n,
    );
}

proof fn lemma_first_suite_is_found<H: Hpke>(suites: Seq<H>, want: HpkeSuite, n: int)
    requires
        0 <= n < suites.len(),
        suites[n].implements() == want,
        forall|i: int| 0 <= i < n ==> (#[trigger] suites[i]).implements() != want,
    ensures
        find_suite(suites, want) == Some(suites[n]),
    decreases n,
{
    if n > 0 {
        assert(suites[0].implements() != want);
        let rest = suites.skip(1);
        assert forall|i: int| 0 <= i < n - 1 implies (#[trigger] rest[i]).implements() != want by {
            assert(rest[i] == suites[i + 1]);
        }
        lemma_first_suite_is_found(rest, want, n - 1);
    }
}

proof fn lemma_found_suite_is_listed<H: Hpke>(suites: Seq<H>, want: HpkeSuite)
    ensures
        find_suite(suites, want) matches Some(s) ==> s.implements() == want && suites.contains(s),
    decreases suites.len(),
{
    if suites.len() > 0 {
        lemma_found_suite_is_listed(suites.skip(1), want);
        if let Some(s) = find_suite(suites, want) {
            if suites[0].implements() == want {
                assert(suites[0] == s);
            } else {
                let i = choose|i: int| 0 <= i < suites.skip(1).len() && suites.skip(1)[i] == s;
                assert(suites[i + 1] == s);
            }
        }
    }
}

/// A key is used for no other offers.
pub proof fn key_is_used_for_no_other_offers<H: Hpke>(key: EchServerKey<H>, ext: hello::OuterView)
    ensures
        chosen_suite(key, ext) matches Some(suite) ==> (key.config@
            matches ech_config::ConfigView::V18(c) && c.config_id == ext.config_id
            && c.symmetric_cipher_suites.contains(ext.cipher_suite) && suite.implements()
            == (HpkeSuite { kem: c.kem_id, sym: ext.cipher_suite })
            && key.hpke_suites@.contains(suite)),
{
    if let ech_config::ConfigView::V18(c) = key.config@ {
        lemma_found_suite_is_listed(
            key.hpke_suites@,
            HpkeSuite { kem: c.kem_id, sym: ext.cipher_suite },
        );
    }
}

/// When a key rejects an offer: if it is not used for it, if no opener can be set
/// up, or if that opener finds nothing under the payload.
pub proof fn key_rejects_what_it_cannot_open<H: Hpke>(key: EchServerKey<H>, offer: OfferView)
    ensures
        tried(key, offer) is Rejected <==> match chosen_suite(key, offer.ext) {
            None => true,
            Some(suite) => {
                let info = ech_key::info_of(key.config@);
                ||| !H::accepts(suite.implements(), offer.ext.enc, info, key.private_key@)
                ||| H::Opener::opened(
                    hpke::OpenerView::Context {
                        suite: suite.implements(),
                        enc: offer.ext.enc,
                        info,
                        private_key: key.private_key@,
                        history: Seq::empty(),
                    },
                    outer_aad::outer_aad(offer.encoded, offer.ext.payload.len() as int),
                    offer.ext.payload,
                ) is None
            },
        },
{
    reveal(attempted);
}

/// An offer of ECH from end to end. The outer ClientHello has any fields and
/// extensions, with the offer among them in any place. The offer names the config
/// of one of the keys. Under its payload, which is authenticated with the outer
/// ClientHello in which that payload is blank, the key's opener finds the encoding
/// of an inner ClientHello with any extensions. Then ECH is accepted, with that
/// ClientHello under the session ID of the outer one. Only the keys in front of
/// the one in question must not open the offer.
pub proof fn offer_is_accepted_from_end_to_end<H: Hpke>(
    keys: Seq<EchServerKey<H>>,
    kn: int,
    contents: ech_config::ContentsView,
    m: int,
    n: int,
    outer: hello::HelloView,
    header: Seq<u8>,
    p: hello::PrefixView,
    list: Seq<extensions::RawExtension>,
    k: int,
    ext: hello::OuterView,
    blank: hello::OuterView,
    q: hello::PrefixView,
    inner_list: Seq<extensions::RawExtension>,
    full: Seq<extensions::RawExtension>,
    padding: nat,
    i: int,
    j: int,
    versions: Seq<u16>,
)
    requires
        header.len() == 4,
        hello::prefix_fits(p),
        outer.session_id == p.session_id,
        outer.session_id.len() <= 32,
        outer.extensions.encrypted_client_hello == Some(hello::EchExtView::Outer(ext)),
        forall|x: int| 0 <= x < list.len() ==> (#[trigger] list[x]).data.len() < 65536,
        0 <= k < list.len(),
        list[k] == (extensions::RawExtension {
            typ: 0xfe0d,
            data: hello::ech_data(hello::EchExtView::Outer(ext)),
        }),
        forall|x: int| 0 <= x < k ==> (#[trigger] list[x]).typ != 0xfe0d,
        blank.cipher_suite == ext.cipher_suite,
        blank.config_id == ext.config_id,
        blank.enc == ext.enc,
        blank.payload.len() == ext.payload.len(),
        forall|x: int| 0 <= x < blank.payload.len() ==> blank.payload[x] == 0,
        hello::prefix_fits(q),
        q.session_id.len() == 0,
        q.cipher_suites.len() > 0,
        q.cipher_suites.len() % 2 == 0,
        q.compression.len() > 0,
        inner_hello::all_fit(inner_list),
        extensions::ext_list_bytes(inner_list).len() < 65536,
        inner_hello::expanded_list(inner_list, extensions::ext_list_bytes(list)) == Some(full),
        hello::extensions_fit(full),
        0 <= i < full.len(),
        full[i] == (extensions::RawExtension { typ: 0xfe0d, data: seq![1u8] }),
        0 <= j < full.len(),
        0 < versions.len() <= 127,
        full[j] == (extensions::RawExtension {
            typ: 0x002b,
            data: seq![(2 * versions.len()) as u8] + hello::word_bytes(versions),
        }),
        forall|x: int| 0 <= x < versions.len() ==> #[trigger] versions[x] != 0x0303,
        0 <= kn < keys.len(),
        keys[kn].config@ == ech_config::ConfigView::V18(contents),
        contents.config_id == ext.config_id,
        0 <= m < contents.symmetric_cipher_suites.len(),
        contents.symmetric_cipher_suites[m] == ext.cipher_suite,
        0 <= n < keys[kn].hpke_suites@.len(),
        keys[kn].hpke_suites@[n].implements() == (HpkeSuite {
            kem: contents.kem_id,
            sym: ext.cipher_suite,
        }),
        ({
            let suite = HpkeSuite { kem: contents.kem_id, sym: ext.cipher_suite };
            let info = seq![0x74u8, 0x6cu8, 0x73u8, 0x20u8, 0x65u8, 0x63u8, 0x68u8, 0x00u8]
                + ech_config::config_bytes(keys[kn].config@);
            let aad = hello::prefix_bytes(p) + wire::vec16(
                extensions::ext_list_bytes(
                    list.update(
                        k,
                        extensions::RawExtension {
                            typ: 0xfe0d,
                            data: hello::ech_data(hello::EchExtView::Outer(blank)),
                        },
                    ),
                ),
            );
            &&& H::accepts(suite, ext.enc, info, keys[kn].private_key@)
            &&& H::Opener::opened(
                hpke::OpenerView::Context {
                    suite,
                    enc: ext.enc,
                    info,
                    private_key: keys[kn].private_key@,
                    history: Seq::empty(),
                },
                aad,
                ext.payload,
            ) == Some(
                hello::prefix_bytes(q) + wire::vec16(extensions::ext_list_bytes(inner_list))
                    + wire::zeros(padding),
            )
        }),
        forall|x: int|
            0 <= x < kn ==> tried(
                #[trigger] keys[x],
                OfferView {
                    ext,
                    session_id: outer.session_id,
                    encoded: header + hello::prefix_bytes(p) + wire::vec16(
                        extensions::ext_list_bytes(list),
                    ),
                    extensions: extensions::ext_list_bytes(list),
                },
            ) is Rejected,
    ensures
        decrypted(
            outer,
            header + hello::prefix_bytes(p) + wire::vec16(extensions::ext_list_bytes(list)),
            extensions::ext_list_bytes(list),
            keys,
        ) matches DecryptView::Accepted { hello: h, raw, context } && raw == hello::prefix_bytes(
            hello::PrefixView { session_id: outer.session_id, ..q },
        ) + wire::vec16(extensions::ext_list_bytes(full)) && h.random == q.random,
{
    let key = keys[kn];
    let encoded = header + hello::prefix_bytes(p) + wire::vec16(extensions::ext_list_bytes(list));
    let offer = OfferView {
        ext,
        session_id: outer.session_id,
        encoded,
        extensions: extensions::ext_list_bytes(list),
    };
    let suite = HpkeSuite { kem: contents.kem_id, sym: ext.cipher_suite };
    ech_key::info_is_laid_out(key.config@);
    outer_aad::aad_is_the_hello_with_an_empty_payload(
        header,
        p,
        list,
        k,
        ext,
        blank,
        Seq::empty(),
    );
    assert(encoded + Seq::empty() =~= encoded);
    let blank_list = list.update(
        k,
        extensions::RawExtension {
            typ: 0xfe0d,
            data: hello::ech_data(hello::EchExtView::Outer(blank)),
        },
    );
    let aad = hello::prefix_bytes(p) + wire::vec16(extensions::ext_list_bytes(blank_list));
    assert(aad + Seq::empty() =~= aad);
    inner_hello::inner_hello_with_any_extensions_is_decoded(
        q,
        inner_list,
        full,
        padding,
        outer.session_id,
        extensions::ext_list_bytes(list),
        i,
        j,
        versions,
    );
    lemma_some_suite_is_found(key.hpke_suites@, suite, n);
    lemma_found_suite_is_listed(key.hpke_suites@, suite);
    assert(tried(key, offer) is Accepted) by {
        reveal(attempted);
    }
    assert(tried(key, offer) matches DecryptView::Accepted { hello: h, raw, context } && raw
        == hello::prefix_bytes(hello::PrefixView { session_id: outer.session_id, ..q })
        + wire::vec16(extensions::ext_list_bytes(full)) && h.random == q.random) by {
        reveal(attempted);
    }
    first_key_that_opens_decides(keys, offer, kn);
}

proof fn lemma_some_suite_is_found<H: Hpke>(suites: Seq<H>, want: HpkeSuite, n: int)
    requires
        0 <= n < suites.len(),
        suites[n].implements() == want,
    ensures
        find_suite(suites, want) is Some,
    decreases suites.len(),
{
    if suites[0].implements() != want {
        lemma_some_suite_is_found(suites.skip(1), want, n - 1);
    }
}

/// A ClientHello without an offer is told from one that is itself an inner one.
pub proof fn hellos_without_an_offer_are_told_apart<H: Hpke>(
    outer: hello::HelloView,
    encoded: Seq<u8>,
    extensions: Seq<u8>,
    keys: Seq<EchServerKey<H>>,
)
    ensures
        outer.extensions.encrypted_client_hello is None ==> decrypted(
            outer,
            encoded,
            extensions,
            keys,
        ) is NotOffered,
        outer.extensions.encrypted_client_hello == Some(hello::EchExtView::Inner) ==> decrypted(
            outer,
            encoded,
            extensions,
            keys,
        ) is InnerDirect,
        outer.extensions.encrypted_client_hello matches Some(hello::EchExtView::Outer(ext)) ==> !(
        decrypted(outer, encoded, extensions, keys) is NotOffered) && !(decrypted(
            outer,
            encoded,
            extensions,
            keys,
        ) is InnerDirect),
{
    if let Some(hello::EchExtView::Outer(ext)) = outer.extensions.encrypted_client_hello {
        lemma_tried_all_decides(
            keys,
            OfferView { ext, session_id: outer.session_id, encoded, extensions },
        );
    }
}

proof fn lemma_tried_all_decides<H: Hpke>(keys: Seq<EchServerKey<H>>, offer: OfferView)
    ensures
        tried_all(keys, offer) is Accepted || tried_all(keys, offer) is Fatal || tried_all(
            keys,
            offer,
        ) is Rejected,
    decreases keys.len(),
{
    if keys.len() > 0 {
        lemma_tried_all_decides(keys.skip(1), offer);
        reveal(attempted);
    }
}

/// What opens but is not an inner ClientHello is fatal.
pub proof fn malformed_inner_hello_is_fatal<H: Hpke>(
    key: EchServerKey<H>,
    offer: OfferView,
    encoded_inner: Seq<u8>,
)
    requires
        chosen_suite(key, offer.ext) matches Some(suite) && H::accepts(
            suite.implements(),
            offer.ext.enc,
            ech_key::info_of(key.config@),
            key.private_key@,
        ) && H::Opener::opened(
            hpke::OpenerView::Context {
                suite: suite.implements(),
                enc: offer.ext.enc,
                info: ech_key::info_of(key.config@),
                private_key: key.private_key@,
                history: Seq::empty(),
            },
            outer_aad::outer_aad(offer.encoded, offer.ext.payload.len() as int),
            offer.ext.payload,
        ) == Some(encoded_inner),
        inner_hello::decoded_inner(encoded_inner, offer.session_id, offer.extensions) is Err,
    ensures
        tried(key, offer) == DecryptView::Fatal(
            crate::error::ErrorView::PeerMisbehaved(
                inner_hello::decoded_inner(
                    encoded_inner,
                    offer.session_id,
                    offer.extensions,
                )->Err_0,
            ),
        ),
{
    reveal(attempted);
}

/// What becomes of a first ClientHello. One that is itself an inner one is taken
/// as it is, with its random. Without keys, or without an offer, nothing is done.
/// An offer that is accepted is replaced by the inner ClientHello as a message of
/// the same version, and the state holds the inner random, the opener and what the
/// offer named. An offer that is rejected leaves the retry configs.
pub proof fn first_hello_is_resolved_by_its_offer<H: Hpke>(
    input: message::InputView,
    outer: hello::HelloView,
    encoded: Seq<u8>,
    keys: Seq<EchServerKey<H>>,
)
    requires
        input.payload == (message::PayloadView::Handshake {
            parsed: message::HandshakeView::ClientHello(outer),
            encoded,
        }),
    ensures
        ({
            let ech = outer.extensions.encrypted_client_hello;
            let r = resolved_first(input, keys);
            &&& ech == Some(hello::EchExtView::Inner) ==> (r matches Ok(
                EchOfferView::Resolved { inner_input, state },
            ) && inner_input is None && state.status == EchStatus::AcceptedInnerDirect
                && state.inner_random == outer.random && state.context is NoContext
                && state.retry_configs.len() == 0 && state.config_id is None
                && state.cipher_suite is None)
            &&& ech is None || ech != Some(hello::EchExtView::Inner) && keys.len() == 0
                ==> r == Ok::<EchOfferView, crate::error::ErrorView>(EchOfferView::NotNeeded)
            &&& ech matches Some(hello::EchExtView::Outer(ext)) ==> (keys.len() > 0 ==> (
            inner_hello::message_extensions(encoded) matches Some(list) ==> match decrypted(
                outer,
                encoded,
                list,
                keys,
            ) {
                DecryptView::Accepted { hello: h, raw, context } => r matches Ok(
                    EchOfferView::Resolved { inner_input, state },
                ) && (inner_input matches Some(inner) && inner.version == input.version
                    && inner.aligned_handshake == input.aligned_handshake && inner.payload
                    == (message::PayloadView::Handshake {
                    parsed: message::HandshakeView::ClientHello(h),
                    encoded: inner_hello::hello_message(raw),
                })) && state.status == EchStatus::Accepted && state.inner_random == h.random
                    && state.context == context && state.config_id == Some(ext.config_id)
                    && state.cipher_suite == Some(ext.cipher_suite) && state.retry_configs
                    == ech_key::retry_configs_of(keys),
                DecryptView::Fatal(e) => r == Err::<EchOfferView, crate::error::ErrorView>(e),
                DecryptView::Rejected => r matches Ok(
                    EchOfferView::Resolved { inner_input, state },
                ) && inner_input is None && state.status == EchStatus::Rejected
                    && state.retry_configs == ech_key::retry_configs_of(keys)
                    && state.context is NoContext,
                _ => true,
            }))
        }),
{
}

/// When a second ClientHello goes with the first one: if it offers ECH with no
/// encapsulated secret, and with the config and cipher suite of the first one where
/// these are known. How it is refused otherwise.
pub proof fn second_offer_must_match_the_first(
    ext: Option<hello::EchExtView>,
    config_id: Option<u8>,
    cipher_suite: Option<HpkeSymmetricCipherSuite>,
)
    ensures
        ext is None ==> hrr_offer(ext, config_id, cipher_suite) == Err::<
            hello::OuterView,
            PeerMisbehaved,
        >(PeerMisbehaved::MissingEchExtension),
        ext == Some(hello::EchExtView::Inner) ==> hrr_offer(ext, config_id, cipher_suite) == Err::<
            hello::OuterView,
            PeerMisbehaved,
        >(PeerMisbehaved::InvalidEchClientHelloInner),
        ext matches Some(hello::EchExtView::Outer(o)) ==> {
            let same_id = config_id is None || config_id == Some(o.config_id);
            let same_suite = cipher_suite is None || cipher_suite == Some(o.cipher_suite);
            &&& o.enc.len() > 0 ==> hrr_offer(ext, config_id, cipher_suite) == Err::<
                hello::OuterView,
                PeerMisbehaved,
            >(PeerMisbehaved::InvalidEchClientHelloInner)
            &&& o.enc.len() == 0 && !(same_id && same_suite) ==> hrr_offer(
                ext,
                config_id,
                cipher_suite,
            ) == Err::<hello::OuterView, PeerMisbehaved>(PeerMisbehaved::EchHrrMismatch)
            &&& o.enc.len() == 0 && same_id && same_suite ==> hrr_offer(
                ext,
                config_id,
                cipher_suite,
            ) == Ok::<hello::OuterView, PeerMisbehaved>(o)
        },
{
}

/// What becomes of the payload of a second ClientHello: the opener that is kept is
/// asked for it, with the additional data of the second ClientHello, and what it
/// finds is decoded. If it finds nothing, that is fatal.
pub proof fn second_payload_goes_to_the_kept_opener<O: HpkeOpener>(
    context: hpke::OpenerView,
    outer: hello::HelloView,
    encoded: Seq<u8>,
    extensions: Seq<u8>,
    config_id: Option<u8>,
    cipher_suite: Option<HpkeSymmetricCipherSuite>,
)
    ensures
        ({
            let r = hrr_decrypted::<O>(
                context,
                outer,
                encoded,
                extensions,
                config_id,
                cipher_suite,
            );
            match hrr_offer(outer.extensions.encrypted_client_hello, config_id, cipher_suite) {
                Err(e) => r == Err::<(hello::HelloView, Seq<u8>), PeerMisbehaved>(e),
                Ok(ext) => {
                    let aad = outer_aad::outer_aad(encoded, ext.payload.len() as int);
                    if context is NoContext || O::opened(context, aad, ext.payload) is None {
                        r == Err::<(hello::HelloView, Seq<u8>), PeerMisbehaved>(
                            PeerMisbehaved::EchHrrDecryptionFailed,
                        )
                    } else {
                        r == inner_hello::decoded_inner(
                            O::opened(context, aad, ext.payload)->0,
                            outer.session_id,
                            extensions,
                        )
                    }
                },
            }
        }),
{
    reveal(hrr_decrypted);
}

/// What becomes of a second ClientHello: nothing, unless ECH was accepted. One that
/// is itself an inner one gives its random. Any other is decrypted with the opener,
/// config and cipher suite that are kept, and replaced by its inner ClientHello.
pub proof fn second_hello_is_resolved_by_the_state<O: HpkeOpener>(
    input: message::InputView,
    outer: hello::HelloView,
    encoded: Seq<u8>,
    state: StateView,
)
    requires
        input.payload == (message::PayloadView::Handshake {
            parsed: message::HandshakeView::ClientHello(outer),
            encoded,
        }),
    ensures
        ({
            let (r, after) = resolved_second::<O>(input, state);
            let accepted = state.status == EchStatus::Accepted || state.status
                == EchStatus::AcceptedInnerDirect;
            &&& !accepted ==> r == Ok::<EchOfferView, crate::error::ErrorView>(
                EchOfferView::NotNeeded,
            ) && after == state
            &&& accepted && outer.extensions.encrypted_client_hello == Some(
                hello::EchExtView::Inner,
            ) ==> r == Ok::<EchOfferView, crate::error::ErrorView>(EchOfferView::NotNeeded)
                && after.inner_random == outer.random && after.context == state.context
            &&& accepted && outer.extensions.encrypted_client_hello != Some(
                hello::EchExtView::Inner,
            ) ==> (inner_hello::message_extensions(encoded) matches Some(list) ==> match hrr_decrypted::<
                O,
            >(
                state.context,
                outer,
                encoded,
                list,
                state.config_id,
                state.cipher_suite,
            ) {
                Err(e) => r == Err::<EchOfferView, crate::error::ErrorView>(
                    crate::error::ErrorView::PeerMisbehaved(e),
                ),
                Ok((h, raw)) => after.inner_random == h.random && (r matches Ok(
                    EchOfferView::ResolvedHrr(inner),
                ) && inner.version == input.version && inner.aligned_handshake
                    == input.aligned_handshake && inner.payload
                    == (message::PayloadView::Handshake {
                    parsed: message::HandshakeView::ClientHello(h),
                    encoded: inner_hello::hello_message(raw),
                })),
            })
        }),
{
}

/// What the opener has been asked for after a second ClientHello.
pub proof fn opener_remembers_the_second_payload(
    context: hpke::OpenerView,
    outer: hello::HelloView,
    encoded: Seq<u8>,
    config_id: Option<u8>,
    cipher_suite: Option<HpkeSymmetricCipherSuite>,
)
    ensures
        hrr_context(context, outer, encoded, config_id, cipher_suite) == match hrr_offer(
            outer.extensions.encrypted_client_hello,
            config_id,
            cipher_suite,
        ) {
            Err(_) => context,
            Ok(ext) => context.after(
                outer_aad::outer_aad(encoded, ext.payload.len() as int),
                ext.payload,
            ),
        },
{
}

/// Messages that are no ClientHello, and ClientHellos with an offer whose message
/// does not hold their extensions, are refused, and change nothing.
pub proof fn unusable_messages_are_refused<H: Hpke>(
    input: message::InputView,
    keys: Seq<EchServerKey<H>>,
    state: StateView,
)
    ensures
        message::client_hello_in(input.payload) matches Err(e) ==> resolved_first(input, keys)
            == Err::<EchOfferView, crate::error::ErrorView>(e) && resolved_second::<H::Opener>(
            input,
            state,
        ) == (Err::<EchOfferView, crate::error::ErrorView>(e), state),
        message::client_hello_in(input.payload) matches Ok((outer, encoded)) ==> (
        inner_hello::message_extensions(encoded) is None ==> {
            let refused = Err::<EchOfferView, crate::error::ErrorView>(
                crate::error::ErrorView::PeerMisbehaved(
                    PeerMisbehaved::InvalidEchClientHelloInner,
                ),
            );
            &&& outer.extensions.encrypted_client_hello is Some
                && outer.extensions.encrypted_client_hello != Some(hello::EchExtView::Inner)
                && keys.len() > 0 ==> resolved_first(input, keys) == refused
            &&& outer.extensions.encrypted_client_hello != Some(hello::EchExtView::Inner) && (
            state.status == EchStatus::Accepted || state.status == EchStatus::AcceptedInnerDirect)
                ==> resolved_second::<H::Opener>(input, state) == (refused, state)
        }),
{
}

/// What is handed on of a ClientHello that was resolved: the inner one where there
/// is one. The state that came with it is kept.
pub proof fn resolution_is_handed_on(
    r: Result<EchOfferView, crate::error::ErrorView>,
    state: StateView,
)
    ensures
        match r {
            Err(e) => replacement(r) == Err::<
                Option<message::InputView>,
                crate::error::ErrorView,
            >(e) && state_after_first(r, state) == state,
            Ok(EchOfferView::Resolved { inner_input, state: next }) => replacement(r) == Ok::<
                Option<message::InputView>,
                crate::error::ErrorView,
            >(inner_input) && state_after_first(r, state) == next,
            Ok(EchOfferView::ResolvedHrr(inner)) => replacement(r) == Ok::<
                Option<message::InputView>,
                crate::error::ErrorView,
            >(Some(inner)) && state_after_first(r, state) == state,
            Ok(EchOfferView::NotNeeded) => replacement(r) == Ok::<
                Option<message::InputView>,
                crate::error::ErrorView,
            >(None) && state_after_first(r, state) == state,
        },
{
}

/// The state of a handshake without an opener.
pub proof fn idle_states_hold_no_opener(
    status: EchStatus,
    inner_random: Seq<u8>,
    retry_configs: Seq<ech_config::ConfigView>,
)
    ensures
        ({
            let s = StateView::idle(status, inner_random, retry_configs);
            s.status == status && s.inner_random == inner_random && s.retry_configs
                == retry_configs && s.context is NoContext && s.config_id is None
                && s.cipher_suite is None
        }),
{
}

} // verus!
