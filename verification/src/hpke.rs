//! Hybrid public key encryption (RFC 9180), as far as a server needs it. The
//! algorithms themselves come from whoever implements [`Hpke`].

use vstd::prelude::*;

use crate::error::Error;

verus! {

/// DHKEM(X25519, HKDF-SHA256).
pub const DHKEM_X25519_HKDF_SHA256: u16 = 0x0020;

/// HKDF-SHA256.
pub const HKDF_SHA256: u16 = 0x0001;

/// AES-128-GCM.
pub const AES_128_GCM: u16 = 0x0001;

/// A key encapsulation mechanism, by its registered number.
#[derive(Debug, Clone, Copy, PartialEq, Eq, Structural)]
pub struct HpkeKem(pub u16);

/// A key derivation function and a cipher, by their registered numbers.
#[derive(Debug, Clone, Copy, PartialEq, Eq, Structural)]
pub struct HpkeSymmetricCipherSuite {
    pub kdf_id: u16,
    pub aead_id: u16,
}

impl Default for HpkeSymmetricCipherSuite {
    fn default() -> (s: HpkeSymmetricCipherSuite)
        ensures
            s == (HpkeSymmetricCipherSuite { kdf_id: HKDF_SHA256, aead_id: AES_128_GCM }),
    {
        HpkeSymmetricCipherSuite { kdf_id: HKDF_SHA256, aead_id: AES_128_GCM }
    }
}

/// Everything that two parties have to agree on.
#[derive(Debug, Clone, Copy, PartialEq, Eq, Structural)]
pub struct HpkeSuite {
    pub kem: HpkeKem,
    pub sym: HpkeSymmetricCipherSuite,
}

/// A public key.
pub struct HpkePublicKey(pub Vec<u8>);

/// A private key.
pub struct HpkePrivateKey(Vec<u8>);

impl View for HpkePrivateKey {
    type V = Seq<u8>;

    closed spec fn view(&self) -> Seq<u8> {
        self.0@
    }
}

impl HpkePrivateKey {
    /// The key's bytes.
    pub fn secret_bytes(&self) -> (bytes: &[u8])
        ensures
            bytes@ == self@,
    {
        self.0.as_slice()
    }

    /// A key of the given bytes.
    pub fn from_bytes(bytes: Vec<u8>) -> (key: HpkePrivateKey)
        ensures
            key@ == bytes@,
    {
        HpkePrivateKey(bytes)
    }
}

impl From<Vec<u8>> for HpkePrivateKey {
    fn from(bytes: Vec<u8>) -> HpkePrivateKey {
        HpkePrivateKey(bytes)
    }
}

impl vstd::std_specs::convert::FromSpecImpl<Vec<u8>> for HpkePrivateKey {
    open spec fn obeys_from_spec() -> bool {
        true
    }

    closed spec fn from_spec(bytes: Vec<u8>) -> HpkePrivateKey {
        HpkePrivateKey(bytes)
    }
}

/// What a sender sends along so that the holder of the private key can derive
/// the shared secret.
pub struct EncapsulatedSecret(pub Vec<u8>);

/// The state of an opener: nothing at all, or the parameters that it was set
/// up with and what it has been asked to open so far, in order.
pub enum OpenerView {
    NoContext,
    Context {
        suite: HpkeSuite,
        enc: Seq<u8>,
        info: Seq<u8>,
        private_key: Seq<u8>,
        history: Seq<(Seq<u8>, Seq<u8>)>,
    },
}

impl OpenerView {
    /// The state of an opener that has just been set up.
    pub open spec fn fresh(
        suite: HpkeSuite,
        enc: Seq<u8>,
        info: Seq<u8>,
        private_key: Seq<u8>,
    ) -> OpenerView {
        OpenerView::Context { suite, enc, info, private_key, history: Seq::empty() }
    }

    /// The state after one more request.
    pub open spec fn after(self, aad: Seq<u8>, ciphertext: Seq<u8>) -> OpenerView {
        match self {
            OpenerView::NoContext => OpenerView::NoContext,
            OpenerView::Context { suite, enc, info, private_key, history } => OpenerView::Context {
                suite,
                enc,
                info,
                private_key,
                history: history.push((aad, ciphertext)),
            },
        }
    }
}

/// Opens what one sender sealed, message by message.
pub trait HpkeOpener: Sized {
    /// The opener's state. An implementation says what it is.
    closed spec fn context(&self) -> OpenerView {
        arbitrary()
    }

    /// The plaintext that an opener in the given state finds under
    /// `ciphertext`, if it opens. One without a context opens nothing.
    closed spec fn opened(
        context: OpenerView,
        aad: Seq<u8>,
        ciphertext: Seq<u8>,
    ) -> Option<Seq<u8>> {
        arbitrary()
    }

    /// Opens `ciphertext`, which was sealed together with `aad`.
    fn open(&mut self, aad: &[u8], ciphertext: &[u8]) -> (r: Result<Vec<u8>, Error>)
        ensures
            match r {
                Ok(plaintext) => old(self).context() is Context && Self::opened(
                    old(self).context(),
                    aad@,
                    ciphertext@,
                ) == Some(plaintext@),
                Err(_) => old(self).context() is NoContext || Self::opened(
                    old(self).context(),
                    aad@,
                    ciphertext@,
                ) is None,
            },
            final(self).context() == old(self).context().after(aad@, ciphertext@),
    ;
}

/// An implementation of one suite.
pub trait Hpke: Copy {
    /// The openers that this implementation sets up.
    type Opener: HpkeOpener;

    /// The suite that is implemented.
    closed spec fn implements(&self) -> HpkeSuite {
        arbitrary()
    }

    /// Whether an opener can be set up with the given parameters.
    closed spec fn accepts(
        suite: HpkeSuite,
        enc: Seq<u8>,
        info: Seq<u8>,
        private_key: Seq<u8>,
    ) -> bool {
        arbitrary()
    }

    /// The suite that is implemented.
    fn suite(&self) -> (suite: HpkeSuite)
        ensures
            suite == self.implements(),
    ;

    /// Sets up an opener for what was sealed to `private_key` with `info`.
    fn setup_opener(
        &self,
        enc: &EncapsulatedSecret,
        info: &[u8],
        private_key: &HpkePrivateKey,
    ) -> (r: Result<Self::Opener, Error>)
        ensures
            r is Ok <==> Self::accepts(self.implements(), enc.0@, info@, private_key@),
            r matches Ok(opener) ==> opener.context() == OpenerView::fresh(
                self.implements(),
                enc.0@,
                info@,
                private_key@,
            ),
    ;

    /// Whether generating a key pair may come out like this: with the given
    /// public and private key, or with the given error. An implementation says
    /// what may come out.
    closed spec fn may_generate(
        &self,
        outcome: Result<(Seq<u8>, Seq<u8>), crate::error::ErrorView>,
    ) -> bool {
        arbitrary()
    }

    /// Makes a new key pair. Which one is up to chance, and so is whether it
    /// succeeds.
    fn generate_key_pair(&self) -> (r: Result<(HpkePublicKey, HpkePrivateKey), Error>)
        ensures
            match r {
                Ok((public_key, private_key)) => self.may_generate(
                    Ok((public_key.0@, private_key@)),
                ),
                Err(e) => self.may_generate(Err(e@)),
            },
    ;
}

/// An opener that opens nothing, for where there is no HPKE context: on
/// rejection, and where a frontend has already decrypted the ClientHello.
#[derive(Debug)]
pub struct NoOpOpener;

impl HpkeOpener for NoOpOpener {
    open spec fn context(&self) -> OpenerView {
        OpenerView::NoContext
    }

    open spec fn opened(context: OpenerView, aad: Seq<u8>, ciphertext: Seq<u8>) -> Option<Seq<u8>> {
        None
    }

    fn open(&mut self, _aad: &[u8], _ciphertext: &[u8]) -> (r: Result<Vec<u8>, Error>)
        ensures
            r matches Err(e) && e@ == crate::error::ErrorView::General(
                "no HPKE context available"@,
            ),
    {
        assert(self.context() is NoContext);
        Err(Error::General("no HPKE context available".to_string()))
    }
}

/// The opener that a handshake keeps: one that was set up for it, or none.
pub enum StateOpener<O> {
    NoOp(NoOpOpener),
    Live(O),
}

impl<O: HpkeOpener> HpkeOpener for StateOpener<O> {
    open spec fn context(&self) -> OpenerView {
        match self {
            StateOpener::NoOp(_) => OpenerView::NoContext,
            StateOpener::Live(o) => o.context(),
        }
    }

    open spec fn opened(context: OpenerView, aad: Seq<u8>, ciphertext: Seq<u8>) -> Option<Seq<u8>> {
        O::opened(context, aad, ciphertext)
    }

    fn open(&mut self, aad: &[u8], ciphertext: &[u8]) -> (r: Result<Vec<u8>, Error>) {
        match self {
            StateOpener::NoOp(o) => o.open(aad, ciphertext),
            StateOpener::Live(o) => o.open(aad, ciphertext),
        }
    }
}

/// What an opener in the given state finds under `ciphertext`.
pub open spec fn opened_by<O: HpkeOpener>(
    context: OpenerView,
    aad: Seq<u8>,
    ciphertext: Seq<u8>,
) -> Option<Seq<u8>> {
    if context is NoContext {
        None
    } else {
        O::opened(context, aad, ciphertext)
    }
}

/// An opener starts with what it was set up with and no requests, remembers every
/// request in order, and opens nothing without a context.
pub proof fn openers_remember_their_requests<O: HpkeOpener>(
    suite: HpkeSuite,
    enc: Seq<u8>,
    info: Seq<u8>,
    private_key: Seq<u8>,
    history: Seq<(Seq<u8>, Seq<u8>)>,
    aad: Seq<u8>,
    ciphertext: Seq<u8>,
)
    ensures
        OpenerView::fresh(suite, enc, info, private_key) == (OpenerView::Context {
            suite,
            enc,
            info,
            private_key,
            history: Seq::empty(),
        }),
        (OpenerView::Context { suite, enc, info, private_key, history }).after(aad, ciphertext) == (
        OpenerView::Context {
            suite,
            enc,
            info,
            private_key,
            history: history.push((aad, ciphertext)),
        }),
        OpenerView::NoContext.after(aad, ciphertext) == OpenerView::NoContext,
        opened_by::<O>(OpenerView::NoContext, aad, ciphertext) is None,
        opened_by::<O>(
            OpenerView::Context { suite, enc, info, private_key, history },
            aad,
            ciphertext,
        ) == O::opened(
            OpenerView::Context { suite, enc, info, private_key, history },
            aad,
            ciphertext,
        ),
{
}

} // verus!
