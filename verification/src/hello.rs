//! ClientHello messages: their fields, and the extensions that matter to ECH.

use vstd::prelude::*;

use crate::extensions;
use crate::extensions::{ENCRYPTED_CLIENT_HELLO, PRE_SHARED_KEY, SUPPORTED_VERSIONS};
use crate::hpke::HpkeSymmetricCipherSuite;
use crate::wire;

verus! {

/// TLS 1.2.
pub const TLS12: u16 = 0x0303;

/// TLS 1.3.
pub const TLS13: u16 = 0x0304;

/// The random value of a hello.
#[derive(Debug, Clone, Copy, PartialEq, Eq)]
pub struct Random(pub [u8; 32]);

/// A legacy session ID, of at most 32 bytes.
#[derive(Debug, PartialEq, Eq)]
pub struct SessionId {
    bytes: Vec<u8>,
}

impl View for SessionId {
    type V = Seq<u8>;

    closed spec fn view(&self) -> Seq<u8> {
        self.bytes@
    }
}

impl SessionId {
    #[verifier::type_invariant]
    spec fn inv(self) -> bool {
        self.bytes@.len() <= 32
    }

    /// The session ID of no bytes.
    pub fn empty() -> (s: SessionId)
        ensures
            s@ == Seq::<u8>::empty(),
    {
        let bytes: Vec<u8> = Vec::new();
        assert(bytes@ =~= Seq::<u8>::empty());
        SessionId { bytes }
    }

    /// The session ID of the given bytes, if there are not too many.
    pub fn from_slice(bytes: &[u8]) -> (s: Option<SessionId>)
        ensures
            match s {
                Some(s) => bytes@.len() <= 32 && s@ == bytes@,
                None => bytes@.len() > 32,
            },
    {
        if bytes.len() > 32 {
            return None;
        }
        let bytes = vstd::slice::slice_to_vec(bytes);
        Some(SessionId { bytes })
    }

    /// Reads a session ID with its length.
    pub fn read(r: &mut wire::Reader) -> (s: Option<SessionId>)
        ensures
            match s {
                Some(s) => wire::take_vec8(old(r)@) == Some((s@, final(r)@)) && s@.len() <= 32,
                None => wire::take_vec8(old(r)@) is None || (wire::take_vec8(old(r)@)->0).0.len()
                    > 32,
            },
    {
        match r.vec8() {
            Some(bytes) => SessionId::from_slice(bytes),
            None => None,
        }
    }

    /// The bytes, at most 32.
    pub fn as_slice(&self) -> (bytes: &[u8])
        ensures
            bytes@ == self@,
            bytes@.len() <= 32,
    {
        proof {
            use_type_invariant(self);
        }
        self.bytes.as_slice()
    }

    /// Appends the session ID with its length.
    pub fn encode(&self, out: &mut Vec<u8>)
        ensures
            final(out)@ == old(out)@ + wire::vec8(self@),
    {
        wire::put_vec8(out, self.bytes.as_slice());
    }
}

/// Which versions a client supports, of those that matter here.
#[derive(Debug, Clone, Copy, PartialEq, Eq, Structural)]
pub struct SupportedProtocolVersions {
    pub tls13: bool,
    pub tls12: bool,
}

/// The `encrypted_client_hello` extension of an outer ClientHello.
#[derive(Debug, PartialEq, Eq)]
pub struct EncryptedClientHelloOuter {
    /// What the payload is sealed with.
    pub cipher_suite: HpkeSymmetricCipherSuite,
    /// Which config the client used.
    pub config_id: u8,
    /// The encapsulated secret, empty in a second ClientHello.
    pub enc: Vec<u8>,
    /// The sealed inner ClientHello.
    pub payload: Vec<u8>,
}

/// The value of an [`EncryptedClientHelloOuter`].
#[verifier::ext_equal]
pub struct OuterView {
    pub cipher_suite: HpkeSymmetricCipherSuite,
    pub config_id: u8,
    pub enc: Seq<u8>,
    pub payload: Seq<u8>,
}

impl View for EncryptedClientHelloOuter {
    type V = OuterView;

    open spec fn view(&self) -> OuterView {
        OuterView {
            cipher_suite: self.cipher_suite,
            config_id: self.config_id,
            enc: self.enc@,
            payload: self.payload@,
        }
    }
}

impl Clone for EncryptedClientHelloOuter {
    fn clone(&self) -> (c: EncryptedClientHelloOuter)
        ensures
            c@ == self@,
    {
        let enc = vstd::slice::slice_to_vec(self.enc.as_slice());
        let payload = vstd::slice::slice_to_vec(self.payload.as_slice());
        EncryptedClientHelloOuter {
            cipher_suite: self.cipher_suite,
            config_id: self.config_id,
            enc,
            payload,
        }
    }
}

/// The `encrypted_client_hello` extension.
#[derive(Debug, PartialEq, Eq)]
pub enum EncryptedClientHello {
    /// This hello carries a sealed inner one.
    Outer(EncryptedClientHelloOuter),
    /// This hello is an inner one.
    Inner,
}

/// The value of an [`EncryptedClientHello`].
pub enum EchExtView {
    Outer(OuterView),
    Inner,
}

impl View for EncryptedClientHello {
    type V = EchExtView;

    open spec fn view(&self) -> EchExtView {
        match self {
            EncryptedClientHello::Outer(outer) => EchExtView::Outer(outer@),
            EncryptedClientHello::Inner => EchExtView::Inner,
        }
    }
}

/// The extensions of a ClientHello that matter here.
#[derive(Debug, PartialEq, Eq)]
pub struct ClientExtensions {
    pub supported_versions: Option<SupportedProtocolVersions>,
    pub encrypted_client_hello: Option<EncryptedClientHello>,
}

impl Default for ClientExtensions {
    fn default() -> (e: ClientExtensions)
        ensures
            e.supported_versions is None,
            e.encrypted_client_hello is None,
    {
        ClientExtensions { supported_versions: None, encrypted_client_hello: None }
    }
}

/// The value of [`ClientExtensions`].
pub struct ExtensionsView {
    pub supported_versions: Option<SupportedProtocolVersions>,
    pub encrypted_client_hello: Option<EchExtView>,
}

impl View for ClientExtensions {
    type V = ExtensionsView;

    open spec fn view(&self) -> ExtensionsView {
        ExtensionsView {
            supported_versions: self.supported_versions,
            encrypted_client_hello: match self.encrypted_client_hello {
                Some(e) => Some(e@),
                None => None,
            },
        }
    }
}

/// A ClientHello.
#[derive(Debug, PartialEq, Eq)]
pub struct ClientHelloPayload {
    pub client_version: u16,
    pub random: Random,
    pub session_id: SessionId,
    pub cipher_suites: Vec<u16>,
    pub compression_methods: Vec<u8>,
    pub extensions: ClientExtensions,
}

/// The value of a [`ClientHelloPayload`].
pub struct HelloView {
    pub client_version: u16,
    pub random: Seq<u8>,
    pub session_id: Seq<u8>,
    pub cipher_suites: Seq<u16>,
    pub compression_methods: Seq<u8>,
    pub extensions: ExtensionsView,
}

impl View for ClientHelloPayload {
    type V = HelloView;

    open spec fn view(&self) -> HelloView {
        HelloView {
            client_version: self.client_version,
            random: self.random.0@,
            session_id: self.session_id@,
            cipher_suites: self.cipher_suites@,
            compression_methods: self.compression_methods@,
            extensions: self.extensions@,
        }
    }
}

/// The fields of a ClientHello in front of its extensions, as bytes.
#[verifier::ext_equal]
pub struct PrefixView {
    pub version: u16,
    pub random: Seq<u8>,
    pub session_id: Seq<u8>,
    pub cipher_suites: Seq<u8>,
    pub compression: Seq<u8>,
}

/// The bytes of the fields in front of the extensions.
#[verifier::opaque]
pub open spec fn prefix_bytes(p: PrefixView) -> Seq<u8> {
    wire::be16(p.version as int) + p.random + wire::vec8(p.session_id) + wire::vec16(
        p.cipher_suites,
    ) + wire::vec8(p.compression)
}

/// Reads the fields in front of the extensions off the front of a ClientHello.
#[verifier::opaque]
pub open spec fn take_prefix(s: Seq<u8>) -> Option<(PrefixView, Seq<u8>)> {
    match wire::take_u16(s) {
        None => None,
        Some((version, s1)) => match wire::take_bytes(s1, 32) {
            None => None,
            Some((random, s2)) => match wire::take_vec8(s2) {
                None => None,
                Some((session_id, s3)) => match wire::take_vec16(s3) {
                    None => None,
                    Some((cipher_suites, s4)) => match wire::take_vec8(s4) {
                        None => None,
                        Some((compression, rest)) => Some(
                            (
                                PrefixView {
                                    version,
                                    random,
                                    session_id,
                                    cipher_suites,
                                    compression,
                                },
                                rest,
                            ),
                        ),
                    },
                },
            },
        },
    }
}

/// Whether the fields fit behind their lengths.
pub open spec fn prefix_fits(p: PrefixView) -> bool {
    &&& p.random.len() == 32
    &&& p.session_id.len() < 256
    &&& p.cipher_suites.len() < 65536
    &&& p.compression.len() < 256
}

/// Reading the fields gives back what was written.
pub proof fn lemma_take_prefix(p: PrefixView, rest: Seq<u8>)
    requires
        prefix_fits(p),
    ensures
        take_prefix(prefix_bytes(p) + rest) == Some((p, rest)),
{
    reveal(take_prefix);
    reveal(prefix_bytes);
    let t4 = wire::vec8(p.compression) + rest;
    let t3 = wire::vec16(p.cipher_suites) + t4;
    let t2 = wire::vec8(p.session_id) + t3;
    let t1 = p.random + t2;
    assert(prefix_bytes(p) + rest =~= wire::be16(p.version as int) + t1);
    wire::lemma_take_be16(p.version as int, t1);
    assert(t1.take(32) =~= p.random);
    assert(t1.skip(32) =~= t2);
    wire::lemma_take_vec8(p.session_id, t3);
    wire::lemma_take_vec16(p.cipher_suites, t4);
    wire::lemma_take_vec8(p.compression, rest);
}

/// Writing fields that were read gives back the bytes that they were read from.
pub proof fn lemma_prefix_of_taken(s: Seq<u8>)
    ensures
        take_prefix(s) matches Some((p, rest)) ==> prefix_bytes(p) + rest == s && prefix_fits(p),
{
    reveal(take_prefix);
    reveal(prefix_bytes);
    if let Some((p, rest)) = take_prefix(s) {
        let s1 = (wire::take_u16(s)->0).1;
        let s2 = (wire::take_bytes(s1, 32)->0).1;
        let s3 = (wire::take_vec8(s2)->0).1;
        let s4 = (wire::take_vec16(s3)->0).1;
        assert(wire::be16(p.version as int) + s1 =~= s);
        assert(p.random + s2 =~= s1);
        assert(wire::vec8(p.session_id) + s3 =~= s2);
        wire::lemma_vec16_of_taken(s3);
        assert(wire::vec8(p.compression) + rest =~= s4);
        assert(prefix_bytes(p) + rest =~= s);
    }
}

/// The 16-bit integers that `s` holds, if its length is even.
pub open spec fn words(s: Seq<u8>) -> Option<Seq<u16>> {
    if s.len() % 2 == 0 {
        Some(Seq::new(s.len() / 2, |i: int| (s[2 * i] * 256 + s[2 * i + 1]) as u16))
    } else {
        None
    }
}

/// The bytes of a list of 16-bit integers.
pub open spec fn word_bytes(w: Seq<u16>) -> Seq<u8> {
    Seq::new(
        2 * w.len(),
        |i: int|
            if i % 2 == 0 {
                (w[i / 2] / 256) as u8
            } else {
                (w[i / 2] % 256) as u8
            },
    )
}

/// Reading a list of 16-bit integers gives back what was written.
pub proof fn lemma_words(w: Seq<u16>)
    ensures
        words(word_bytes(w)) == Some(w),
{
    let s = word_bytes(w);
    assert forall|i: int| 0 <= i < w.len() implies #[trigger] (words(s)->0)[i] == w[i] by {
        assert(s[2 * i] == (w[i] / 256) as u8);
        assert(s[2 * i + 1] == (w[i] % 256) as u8);
    }
    assert(words(s)->0 =~= w);
}

/// The versions named in the data of a `supported_versions` extension, or
/// nothing if that is malformed.
pub open spec fn supported_versions_of(data: Seq<u8>) -> Option<SupportedProtocolVersions> {
    match wire::take_vec8(data) {
        None => None,
        Some((list, rest)) => match words(list) {
            None => None,
            Some(versions) => if list.len() == 0 || rest.len() != 0 {
                None
            } else {
                Some(
                    SupportedProtocolVersions {
                        tls13: versions.contains(TLS13),
                        tls12: versions.contains(TLS12),
                    },
                )
            },
        },
    }
}

/// The data of a `supported_versions` extension.
pub open spec fn supported_versions_data(v: SupportedProtocolVersions) -> Seq<u8> {
    wire::vec8(
        (if v.tls13 {
            wire::be16(TLS13 as int)
        } else {
            Seq::empty()
        }) + (if v.tls12 {
            wire::be16(TLS12 as int)
        } else {
            Seq::empty()
        }),
    )
}

/// The outer form of an `encrypted_client_hello` extension behind its type
/// byte, or nothing if that is malformed.
pub open spec fn ech_outer_of(data: Seq<u8>) -> Option<OuterView> {
    match wire::take_u16(data) {
        None => None,
        Some((kdf_id, s1)) => match wire::take_u16(s1) {
            None => None,
            Some((aead_id, s2)) => match wire::take_u8(s2) {
                None => None,
                Some((config_id, s3)) => match wire::take_vec16(s3) {
                    None => None,
                    Some((enc, s4)) => match wire::take_vec16(s4) {
                        None => None,
                        Some((payload, rest)) => if payload.len() == 0 || rest.len() != 0 {
                            None
                        } else {
                            Some(
                                OuterView {
                                    cipher_suite: HpkeSymmetricCipherSuite { kdf_id, aead_id },
                                    config_id,
                                    enc,
                                    payload,
                                },
                            )
                        },
                    },
                },
            },
        },
    }
}

/// What the data of an `encrypted_client_hello` extension says, or nothing if
/// it is malformed.
pub open spec fn ech_of(data: Seq<u8>) -> Option<EchExtView> {
    match wire::take_u8(data) {
        None => None,
        Some((kind, body)) => if kind == 0 {
            match ech_outer_of(body) {
                None => None,
                Some(outer) => Some(EchExtView::Outer(outer)),
            }
        } else if kind == 1 && body.len() == 0 {
            Some(EchExtView::Inner)
        } else {
            None
        },
    }
}

/// The data of an `encrypted_client_hello` extension.
pub open spec fn ech_data(e: EchExtView) -> Seq<u8> {
    match e {
        EchExtView::Inner => seq![1u8],
        EchExtView::Outer(o) => seq![0u8] + wire::be16(o.cipher_suite.kdf_id as int) + wire::be16(
            o.cipher_suite.aead_id as int,
        ) + seq![o.config_id] + wire::vec16(o.enc) + wire::vec16(o.payload),
    }
}

/// Whether a client may send these extensions: no type twice, `pre_shared_key`
/// nowhere but at the end, and the extensions that matter here well formed.
pub open spec fn extensions_valid(list: Seq<extensions::RawExtension>) -> bool {
    &&& forall|i: int, j: int|
        0 <= i < j < list.len() ==> (#[trigger] list[i]).typ != (#[trigger] list[j]).typ
    &&& forall|i: int| 0 <= i < list.len() ==> #[trigger] extension_valid(list[i])
    &&& forall|i: int|
        0 <= i < list.len() - 1 ==> (#[trigger] list[i]).typ != PRE_SHARED_KEY
}

/// Whether an extension, if it matters here, is well formed.
pub open spec fn extension_valid(e: extensions::RawExtension) -> bool {
    &&& e.typ == SUPPORTED_VERSIONS ==> supported_versions_of(e.data) is Some
    &&& e.typ == ENCRYPTED_CLIENT_HELLO ==> ech_of(e.data) is Some
}

/// What a list of extensions says.
pub open spec fn extensions_value(list: Seq<extensions::RawExtension>) -> ExtensionsView {
    ExtensionsView {
        supported_versions: match extensions::find_ext(list, SUPPORTED_VERSIONS) {
            Some(data) => supported_versions_of(data),
            None => None,
        },
        encrypted_client_hello: match extensions::find_ext(list, ENCRYPTED_CLIENT_HELLO) {
            Some(data) => ech_of(data),
            None => None,
        },
    }
}

/// What the rest of a ClientHello behind its other fields says: the extensions
/// behind their length, or no extensions at all.
pub open spec fn hello_extensions(s: Seq<u8>) -> Option<ExtensionsView> {
    if s.len() == 0 {
        Some(ExtensionsView { supported_versions: None, encrypted_client_hello: None })
    } else {
        match wire::take_vec16(s) {
            None => None,
            Some((body, rest)) => match extensions::ext_list(body) {
                None => None,
                Some(list) => if rest.len() == 0 && extensions_valid(list) {
                    Some(extensions_value(list))
                } else {
                    None
                },
            },
        }
    }
}

/// The ClientHello whose body `s` is, or nothing if that is malformed.
pub open spec fn parsed_hello(s: Seq<u8>) -> Option<HelloView> {
    match take_prefix(s) {
        None => None,
        Some((p, rest)) => match hello_extensions(rest) {
            None => None,
            Some(extensions) => if p.session_id.len() > 32 || p.cipher_suites.len() == 0
                || words(p.cipher_suites) is None || p.compression.len() == 0 {
                None
            } else {
                Some(
                    HelloView {
                        client_version: p.version,
                        random: p.random,
                        session_id: p.session_id,
                        cipher_suites: words(p.cipher_suites)->0,
                        compression_methods: p.compression,
                        extensions,
                    },
                )
            },
        },
    }
}

/// Reads a list of 16-bit integers.
fn read_words(bytes: &[u8]) -> (r: Option<Vec<u16>>)
    ensures
        match r {
            Some(w) => words(bytes@) == Some(w@),
            None => words(bytes@) is None,
        },
{
    if bytes.len() % 2 != 0 {
        return None;
    }
    let n = bytes.len() / 2;
    let mut w: Vec<u16> = Vec::new();
    let mut i: usize = 0;
    while i < n
        invariant
            bytes.len() == 2 * n,
            0 <= i <= n,
            w@.len() == i,
            forall|j: int| 0 <= j < i ==> w@[j] == (bytes@[2 * j] * 256 + bytes@[2 * j + 1]) as u16,
        decreases n - i,
    {
        w.push(bytes[2 * i] as u16 * 256 + bytes[2 * i + 1] as u16);
        i = i + 1;
    }
    assert(w@ =~= words(bytes@)->0);
    Some(w)
}

fn contains_word(w: &[u16], value: u16) -> (b: bool)
    ensures
        b == w@.contains(value),
{
    let mut i: usize = 0;
    while i < w.len()
        invariant
            0 <= i <= w@.len(),
            forall|j: int| 0 <= j < i ==> w@[j] != value,
        decreases w@.len() - i,
    {
        if w[i] == value {
            return true;
        }
        i = i + 1;
    }
    false
}

impl SupportedProtocolVersions {
    /// Reads the data of a `supported_versions` extension.
    pub fn read(data: &[u8]) -> (v: Option<SupportedProtocolVersions>)
        ensures
            v == supported_versions_of(data@),
    {
        let mut r = wire::Reader::new(data);
        let list = match r.vec8() {
            Some(list) => list,
            None => return None,
        };
        if list.len() == 0 || r.any_left() {
            return None;
        }
        match read_words(list) {
            Some(w) => Some(
                SupportedProtocolVersions {
                    tls13: contains_word(&w, TLS13),
                    tls12: contains_word(&w, TLS12),
                },
            ),
            None => None,
        }
    }

    /// The data of the extension.
    pub fn encode(&self) -> (data: Vec<u8>)
        ensures
            data@ == supported_versions_data(*self),
    {
        let mut list: Vec<u8> = Vec::new();
        if self.tls13 {
            wire::put_u16(&mut list, TLS13 as usize);
        }
        if self.tls12 {
            wire::put_u16(&mut list, TLS12 as usize);
        }
        let mut data: Vec<u8> = Vec::new();
        wire::put_vec8(&mut data, &list);
        assert(data@ =~= supported_versions_data(*self));
        data
    }
}

impl EncryptedClientHello {
    fn read_outer(data: &[u8]) -> (o: Option<EncryptedClientHelloOuter>)
        ensures
            match o {
                Some(o) => ech_outer_of(data@) == Some(o@),
                None => ech_outer_of(data@) is None,
            },
    {
        let mut r = wire::Reader::new(data);
        let kdf_id: u16 = match r.u16() {
            Some(id) => id,
            None => return None,
        };
        let aead_id: u16 = match r.u16() {
            Some(id) => id,
            None => return None,
        };
        let config_id: u8 = match r.u8() {
            Some(id) => id,
            None => return None,
        };
        let enc = match r.vec16() {
            Some(enc) => enc,
            None => return None,
        };
        let payload = match r.vec16() {
            Some(payload) => payload,
            None => return None,
        };
        if payload.len() == 0 || r.any_left() {
            return None;
        }
        Some(
            EncryptedClientHelloOuter {
                cipher_suite: HpkeSymmetricCipherSuite { kdf_id, aead_id },
                config_id,
                enc: vstd::slice::slice_to_vec(enc),
                payload: vstd::slice::slice_to_vec(payload),
            },
        )
    }

    /// Reads the data of an `encrypted_client_hello` extension.
    pub fn read(data: &[u8]) -> (e: Option<EncryptedClientHello>)
        ensures
            match e {
                Some(e) => ech_of(data@) == Some(e@),
                None => ech_of(data@) is None,
            },
    {
        let mut r = wire::Reader::new(data);
        let kind: u8 = match r.u8() {
            Some(kind) => kind,
            None => return None,
        };
        if kind == 0 {
            match EncryptedClientHello::read_outer(r.rest()) {
                Some(outer) => Some(EncryptedClientHello::Outer(outer)),
                None => None,
            }
        } else if kind == 1 && !r.any_left() {
            Some(EncryptedClientHello::Inner)
        } else {
            None
        }
    }

    /// The data of the extension.
    pub fn encode(&self) -> (data: Vec<u8>)
        ensures
            data@ == ech_data(self@),
    {
        let mut data: Vec<u8> = Vec::new();
        match self {
            EncryptedClientHello::Outer(o) => {
                data.push(0);
                wire::put_u16(&mut data, o.cipher_suite.kdf_id as usize);
                wire::put_u16(&mut data, o.cipher_suite.aead_id as usize);
                data.push(o.config_id);
                wire::put_vec16(&mut data, &o.enc);
                wire::put_vec16(&mut data, &o.payload);
            },
            EncryptedClientHello::Inner => {
                data.push(1);
            },
        }
        assert(data@ =~= ech_data(self@));
        data
    }
}

/// Whether one of the extensions has the given type.
spec fn has_type(list: Seq<extensions::RawExtension>, typ: u16) -> bool {
    exists|i: int| 0 <= i < list.len() && (#[trigger] list[i]).typ == typ
}

/// The list that `done` starts and `rest` holds the remainder of.
spec fn continued(done: Seq<extensions::RawExtension>, rest: Seq<u8>) -> Option<
    Seq<extensions::RawExtension>,
> {
    match extensions::ext_list(rest) {
        Some(list) => Some(done + list),
        None => None,
    }
}

/// What is known once `done` has been read: the types, and what it says.
spec fn read_so_far(
    done: Seq<extensions::RawExtension>,
    seen: Seq<u16>,
    value: ExtensionsView,
) -> bool {
    &&& extensions_valid(done)
    &&& value == extensions_value(done)
    &&& seen == Seq::new(done.len(), |i: int| done[i].typ)
}

proof fn lemma_find_ext_push(
    done: Seq<extensions::RawExtension>,
    e: extensions::RawExtension,
    typ: u16,
)
    ensures
        extensions::find_ext(done.push(e), typ) == if extensions::find_ext(done, typ) is Some {
            extensions::find_ext(done, typ)
        } else if e.typ == typ {
            Some(e.data)
        } else {
            None
        },
        extensions::find_ext(done, typ) is Some ==> has_type(done, typ),
    decreases done.len(),
{
    reveal_with_fuel(extensions::find_ext, 2);
    if done.len() > 0 {
        assert(done.push(e).skip(1) =~= done.skip(1).push(e));
        lemma_find_ext_push(done.skip(1), e, typ);
        if done[0].typ != typ && extensions::find_ext(done, typ) is Some {
            let i = choose|i: int|
                0 <= i < done.skip(1).len() && (#[trigger] done.skip(1)[i]).typ == typ;
            assert(done[i + 1].typ == typ);
        }
    } else {
        assert(done.push(e).skip(1) =~= Seq::empty());
    }
}

/// One more extension is accepted if and only if the list stays valid.
proof fn lemma_extensions_push(
    done: Seq<extensions::RawExtension>,
    e: extensions::RawExtension,
    more: Seq<extensions::RawExtension>,
)
    requires
        extensions_valid(done),
    ensures
        extensions_valid(done.push(e)) <==> {
            &&& !has_type(done, e.typ)
            &&& extension_valid(e)
            &&& done.len() > 0 ==> done.last().typ != PRE_SHARED_KEY
        },
        extensions_valid(done.push(e) + more) ==> extensions_valid(done.push(e)),
{
    let list = done.push(e);
    let n = done.len() as int;
    assert(list[n] == e);
    assert(forall|i: int| 0 <= i < n ==> list[i] == done[i]);
    if has_type(done, e.typ) {
        let i = choose|i: int| 0 <= i < done.len() && (#[trigger] done[i]).typ == e.typ;
        assert(list[i].typ == list[n].typ);
    }
    if extensions_valid(list) && n > 0 {
        assert(list[n - 1].typ != PRE_SHARED_KEY);
    }
    if extensions_valid(list) {
        assert(extension_valid(list[n]));
    }
    if !has_type(done, e.typ) && extension_valid(e) && (n > 0 ==> done.last().typ
        != PRE_SHARED_KEY) {
        assert forall|i: int, j: int| 0 <= i < j < list.len() implies (#[trigger] list[i]).typ != (
        #[trigger] list[j]).typ by {
            assert(list[i] == done[i]);
            if j < n {
                assert(list[j] == done[j]);
            }
        }
        assert forall|i: int| 0 <= i < list.len() implies #[trigger] extension_valid(list[i]) by {
            if i < n {
                assert(extension_valid(done[i]));
            }
        }
        assert forall|i: int| 0 <= i < list.len() - 1 implies (#[trigger] list[i]).typ
            != PRE_SHARED_KEY by {
            assert(list[i] == done[i]);
        }
    }
    let whole = list + more;
    if extensions_valid(whole) {
        assert(forall|i: int| 0 <= i < list.len() ==> list[i] == whole[i]);
        assert forall|i: int| 0 <= i < list.len() implies #[trigger] extension_valid(list[i]) by {
            assert(extension_valid(whole[i]));
        }
    }
}

proof fn lemma_read_so_far(
    done: Seq<extensions::RawExtension>,
    seen: Seq<u16>,
    value: ExtensionsView,
    e: extensions::RawExtension,
    next: ExtensionsView,
)
    requires
        read_so_far(done, seen, value),
        extensions_valid(done.push(e)),
        next == (ExtensionsView {
            supported_versions: if e.typ == SUPPORTED_VERSIONS {
                supported_versions_of(e.data)
            } else {
                value.supported_versions
            },
            encrypted_client_hello: if e.typ == ENCRYPTED_CLIENT_HELLO {
                ech_of(e.data)
            } else {
                value.encrypted_client_hello
            },
        }),
    ensures
        read_so_far(done.push(e), seen.push(e.typ), next),
{
    lemma_extensions_push(done, e, Seq::empty());
    lemma_find_ext_push(done, e, SUPPORTED_VERSIONS);
    lemma_find_ext_push(done, e, ENCRYPTED_CLIENT_HELLO);
    assert(seen.push(e.typ) =~= Seq::new(done.push(e).len(), |i: int| done.push(e)[i].typ));
}

proof fn lemma_seen(done: Seq<extensions::RawExtension>, seen: Seq<u16>, typ: u16)
    requires
        seen == Seq::new(done.len(), |i: int| done[i].typ),
    ensures
        seen.contains(typ) <==> has_type(done, typ),
{
    if seen.contains(typ) {
        let i = choose|i: int| 0 <= i < seen.len() && seen[i] == typ;
        assert(done[i].typ == typ);
    }
    if has_type(done, typ) {
        let i = choose|i: int| 0 <= i < done.len() && (#[trigger] done[i]).typ == typ;
        assert(seen[i] == typ);
    }
}

impl ClientExtensions {
    /// Reads the extensions that `bytes` holds, if they are well formed.
    pub fn read(bytes: &[u8]) -> (r: Option<ClientExtensions>)
        ensures
            match r {
                Some(e) => extensions::ext_list(bytes@) matches Some(list) && extensions_valid(list)
                    && e@ == extensions_value(list),
                None => extensions::ext_list(bytes@) matches Some(list) ==> !extensions_valid(list),
            },
    {
        let mut reader = wire::Reader::new(bytes);
        let mut found = ClientExtensions { supported_versions: None, encrypted_client_hello: None };
        let mut seen: Vec<u16> = Vec::new();
        let ghost mut done: Seq<extensions::RawExtension> = Seq::empty();
        assert(seen@ =~= Seq::new(done.len(), |i: int| done[i].typ));
        assert(continued(done, reader@) == extensions::ext_list(bytes@)) by {
            if let Some(list) = extensions::ext_list(bytes@) {
                assert(done + list =~= list);
            }
        }
        while reader.any_left()
            invariant
                continued(done, reader@) == extensions::ext_list(bytes@),
                read_so_far(done, seen@, found@),
            decreases reader@.len(),
        {
            let ghost before = reader@;
            let (typ, data) = match extensions::read_ext(&mut reader) {
                Some(e) => e,
                None => return None,
            };
            let ghost e = extensions::RawExtension { typ, data: data@ };
            let ghost more = match extensions::ext_list(reader@) {
                Some(list) => list,
                None => Seq::empty(),
            };
            let ghost value = found@;
            proof {
                extensions::lemma_ext_of_taken(before);
                if extensions::ext_list(reader@) is Some {
                    assert(done + (seq![e] + more) =~= done.push(e) + more);
                }
                assert(continued(done.push(e), reader@) == extensions::ext_list(bytes@));
                lemma_extensions_push(done, e, more);
                lemma_seen(done, seen@, typ);
            }
            if contains_word(&seen, typ) {
                return None;
            }
            if seen.len() > 0 && seen[seen.len() - 1] == PRE_SHARED_KEY {
                return None;
            }
            if typ == SUPPORTED_VERSIONS {
                match SupportedProtocolVersions::read(data) {
                    Some(v) => {
                        found.supported_versions = Some(v);
                    },
                    None => return None,
                }
            } else if typ == ENCRYPTED_CLIENT_HELLO {
                match EncryptedClientHello::read(data) {
                    Some(v) => {
                        found.encrypted_client_hello = Some(v);
                    },
                    None => return None,
                }
            }
            proof {
                lemma_read_so_far(done, seen@, value, e, found@);
                done = done.push(e);
            }
            seen.push(typ);
        }
        assert(done + Seq::empty() =~= done);
        Some(found)
    }
}

fn to_random(bytes: &[u8]) -> (random: Random)
    requires
        bytes@.len() == 32,
    ensures
        random.0@ == bytes@,
{
    let mut a: [u8; 32] = [0; 32];
    let mut i: usize = 0;
    while i < 32
        invariant
            bytes@.len() == 32,
            0 <= i <= 32,
            forall|j: int| 0 <= j < i ==> a@[j] == bytes@[j],
        decreases 32 - i,
    {
        a[i] = bytes[i];
        i = i + 1;
    }
    assert(a@ =~= bytes@);
    Random(a)
}

/// The fields of a ClientHello in front of its extensions.
pub struct HelloPrefix<'a> {
    pub version: u16,
    pub random: &'a [u8],
    pub session_id: &'a [u8],
    pub cipher_suites: &'a [u8],
    pub compression: &'a [u8],
}

impl<'a> View for HelloPrefix<'a> {
    type V = PrefixView;

    open spec fn view(&self) -> PrefixView {
        PrefixView {
            version: self.version,
            random: self.random@,
            session_id: self.session_id@,
            cipher_suites: self.cipher_suites@,
            compression: self.compression@,
        }
    }
}

impl<'a> HelloPrefix<'a> {
    /// Reads the fields in front of the extensions. What is consumed on failure
    /// is left open.
    pub fn read(r: &mut wire::Reader<'a>) -> (p: Option<HelloPrefix<'a>>)
        ensures
            match p {
                Some(p) => take_prefix(old(r)@) == Some((p@, final(r)@)),
                None => take_prefix(old(r)@) is None,
            },
    {
        reveal(take_prefix);
        let version: u16 = match r.u16() {
            Some(version) => version,
            None => return None,
        };
        let random = match r.take(32) {
            Some(random) => random,
            None => return None,
        };
        let session_id = match r.vec8() {
            Some(session_id) => session_id,
            None => return None,
        };
        let cipher_suites = match r.vec16() {
            Some(cipher_suites) => cipher_suites,
            None => return None,
        };
        let compression = match r.vec8() {
            Some(compression) => compression,
            None => return None,
        };
        Some(HelloPrefix { version, random, session_id, cipher_suites, compression })
    }
}

impl ClientHelloPayload {
    /// Reads the body of a ClientHello, which must be all that is left. What is
    /// consumed on failure is left open.
    pub fn read(r: &mut wire::Reader) -> (hello: Option<ClientHelloPayload>)
        ensures
            match hello {
                Some(hello) => parsed_hello(old(r)@) == Some(hello@) && final(r)@.len() == 0,
                None => parsed_hello(old(r)@) is None,
            },
    {
        proof {
            lemma_prefix_of_taken(r@);
        }
        let p = match HelloPrefix::read(r) {
            Some(p) => p,
            None => return None,
        };
        let session_id = match SessionId::from_slice(p.session_id) {
            Some(session_id) => session_id,
            None => return None,
        };
        let cipher_suites = match read_words(p.cipher_suites) {
            Some(cipher_suites) => cipher_suites,
            None => return None,
        };
        if p.cipher_suites.len() == 0 || p.compression.len() == 0 {
            return None;
        }
        let extensions = if r.any_left() {
            let body = match r.vec16() {
                Some(body) => body,
                None => return None,
            };
            if r.any_left() {
                return None;
            }
            match ClientExtensions::read(body) {
                Some(extensions) => extensions,
                None => return None,
            }
        } else {
            ClientExtensions { supported_versions: None, encrypted_client_hello: None }
        };
        Some(
            ClientHelloPayload {
                client_version: p.version,
                random: to_random(p.random),
                session_id,
                cipher_suites,
                compression_methods: vstd::slice::slice_to_vec(p.compression),
                extensions,
            },
        )
    }
}

/// The list of the given extensions.
pub open spec fn extension_list(e: ExtensionsView) -> Seq<extensions::RawExtension> {
    optional_ext(
        SUPPORTED_VERSIONS,
        match e.supported_versions {
            Some(v) => Some(supported_versions_data(v)),
            None => None,
        },
    ) + optional_ext(
        ENCRYPTED_CLIENT_HELLO,
        match e.encrypted_client_hello {
            Some(v) => Some(ech_data(v)),
            None => None,
        },
    )
}

/// The list of one extension, or of none.
pub open spec fn optional_ext(typ: u16, data: Option<Seq<u8>>) -> Seq<extensions::RawExtension> {
    match data {
        Some(data) => seq![extensions::RawExtension { typ, data }],
        None => Seq::empty(),
    }
}

/// The fields in front of the extensions.
pub open spec fn hello_prefix(h: HelloView) -> PrefixView {
    PrefixView {
        version: h.client_version,
        random: h.random,
        session_id: h.session_id,
        cipher_suites: word_bytes(h.cipher_suites),
        compression: h.compression_methods,
    }
}

/// The body of a ClientHello. Where there are no extensions, their length is
/// left out too.
pub open spec fn hello_bytes(h: HelloView) -> Seq<u8> {
    let list = extension_list(h.extensions);
    prefix_bytes(hello_prefix(h)) + if list.len() == 0 {
        Seq::empty()
    } else {
        wire::vec16(extensions::ext_list_bytes(list))
    }
}

/// Whether a ClientHello can be sent: every field has a length that it may
/// have, and a list that must not be empty is not.
pub open spec fn hello_valid(h: HelloView) -> bool {
    &&& h.random.len() == 32
    &&& h.session_id.len() <= 32
    &&& 0 < h.cipher_suites.len() < 32768
    &&& 0 < h.compression_methods.len() < 256
    &&& h.extensions.supported_versions matches Some(v) ==> v.tls13 || v.tls12
    &&& h.extensions.encrypted_client_hello matches Some(EchExtView::Outer(o)) ==> o.payload.len()
        > 0
    &&& extensions::ext_list_bytes(extension_list(h.extensions)).len() < 65536
}

proof fn lemma_supported_versions(v: SupportedProtocolVersions)
    requires
        v.tls13 || v.tls12,
    ensures
        supported_versions_of(supported_versions_data(v)) == Some(v),
{
    let list: Seq<u16> = (if v.tls13 {
        seq![TLS13]
    } else {
        Seq::empty()
    }) + (if v.tls12 {
        seq![TLS12]
    } else {
        Seq::empty()
    });
    let bytes = word_bytes(list);
    assert(supported_versions_data(v) =~= wire::vec8(bytes) + Seq::empty());
    wire::lemma_take_vec8(bytes, Seq::empty());
    lemma_words(list);
    if v.tls13 {
        assert(list[0] == TLS13);
    }
    if v.tls12 {
        assert(list.last() == TLS12);
    }
}

proof fn lemma_ech_data(e: EchExtView)
    requires
        e matches EchExtView::Outer(o) ==> o.payload.len() > 0,
        ech_data(e).len() < 65536,
    ensures
        ech_of(ech_data(e)) == Some(e),
{
    match e {
        EchExtView::Inner => {},
        EchExtView::Outer(o) => {
            let t4 = wire::vec16(o.payload) + Seq::empty();
            let t3 = wire::vec16(o.enc) + t4;
            let t2 = seq![o.config_id] + t3;
            let t1 = wire::be16(o.cipher_suite.aead_id as int) + t2;
            let t0 = wire::be16(o.cipher_suite.kdf_id as int) + t1;
            assert(ech_data(e) =~= seq![0u8] + t0);
            assert(ech_data(e).skip(1) =~= t0);
            wire::lemma_take_be16(o.cipher_suite.kdf_id as int, t1);
            wire::lemma_take_be16(o.cipher_suite.aead_id as int, t2);
            assert(t2.skip(1) =~= t3);
            wire::lemma_take_vec16(o.enc, t4);
            wire::lemma_take_vec16(o.payload, Seq::empty());
        },
    }
}

/// No extension is longer than the list.
proof fn lemma_optional_ext_sizes(
    versions: Option<Seq<u8>>,
    ech: Option<Seq<u8>>,
    list: Seq<extensions::RawExtension>,
)
    requires
        list == optional_ext(SUPPORTED_VERSIONS, versions) + optional_ext(
            ENCRYPTED_CLIENT_HELLO,
            ech,
        ),
    ensures
        versions matches Some(data) ==> data.len() <= extensions::ext_list_bytes(list).len(),
        ech matches Some(data) ==> data.len() <= extensions::ext_list_bytes(list).len(),
{
    reveal_with_fuel(extensions::ext_list_bytes, 3);
}

/// What is found in a list of two extensions that may be missing.
proof fn lemma_optional_exts(
    versions: Option<Seq<u8>>,
    ech: Option<Seq<u8>>,
    list: Seq<extensions::RawExtension>,
)
    requires
        list == optional_ext(SUPPORTED_VERSIONS, versions) + optional_ext(
            ENCRYPTED_CLIENT_HELLO,
            ech,
        ),
        versions matches Some(data) ==> data.len() < 65536 && supported_versions_of(data) is Some,
        ech matches Some(data) ==> data.len() < 65536 && ech_of(data) is Some,
    ensures
        extensions::find_ext(list, SUPPORTED_VERSIONS) == versions,
        extensions::find_ext(list, ENCRYPTED_CLIENT_HELLO) == ech,
        extensions_valid(list),
        forall|i: int| 0 <= i < list.len() ==> (#[trigger] list[i]).data.len() < 65536,
{
    reveal_with_fuel(extensions::find_ext, 3);
}

/// Reading the list of the given extensions gives them back.
pub proof fn lemma_extension_list(e: ExtensionsView)
    requires
        e.supported_versions matches Some(v) ==> v.tls13 || v.tls12,
        e.encrypted_client_hello matches Some(EchExtView::Outer(o)) ==> o.payload.len() > 0,
        extensions::ext_list_bytes(extension_list(e)).len() < 65536,
    ensures
        extensions::ext_list(extensions::ext_list_bytes(extension_list(e))) == Some(
            extension_list(e),
        ),
        extensions_valid(extension_list(e)),
        extensions_value(extension_list(e)) == e,
{
    let list = extension_list(e);
    let versions = match e.supported_versions {
        Some(v) => Some(supported_versions_data(v)),
        None => None,
    };
    let ech = match e.encrypted_client_hello {
        Some(v) => Some(ech_data(v)),
        None => None,
    };
    lemma_optional_ext_sizes(versions, ech, list);
    if let Some(v) = e.supported_versions {
        lemma_supported_versions(v);
    }
    if let Some(v) = e.encrypted_client_hello {
        lemma_ech_data(v);
    }
    lemma_optional_exts(versions, ech, list);
    extensions::ext_list_round_trip(list);
}

/// Reading a ClientHello gives back what was written.
pub proof fn hello_round_trip(h: HelloView)
    requires
        hello_valid(h),
    ensures
        parsed_hello(hello_bytes(h)) == Some(h),
{
    let list = extension_list(h.extensions);
    let body = extensions::ext_list_bytes(list);
    let tail = if list.len() == 0 {
        Seq::empty()
    } else {
        wire::vec16(body)
    };
    lemma_extension_list(h.extensions);
    lemma_take_prefix(hello_prefix(h), tail);
    lemma_words(h.cipher_suites);
    if list.len() > 0 {
        assert(tail =~= tail + Seq::empty());
        wire::lemma_take_vec16(body, Seq::empty());
    }
    assert(hello_extensions(tail) == Some(h.extensions));
}

fn put_words(out: &mut Vec<u8>, w: &[u16])
    ensures
        final(out)@ == old(out)@ + word_bytes(w@),
{
    let mut i: usize = 0;
    let ghost start = out@;
    assert(start + word_bytes(w@.take(0)) =~= start);
    while i < w.len()
        invariant
            0 <= i <= w@.len(),
            out@ == start + word_bytes(w@.take(i as int)),
        decreases w@.len() - i,
    {
        wire::put_u16(out, w[i] as usize);
        i = i + 1;
        assert(out@ =~= start + word_bytes(w@.take(i as int)));
    }
    assert(w@.take(i as int) =~= w@);
}

impl ClientHelloPayload {
    /// The body of the ClientHello.
    pub fn get_encoding(&self) -> (bytes: Vec<u8>)
        ensures
            bytes@ == hello_bytes(self@),
    {
        let mut out: Vec<u8> = Vec::new();
        wire::put_u16(&mut out, self.client_version as usize);
        wire::put_bytes(&mut out, &self.random.0);
        self.session_id.encode(&mut out);
        let mut suites: Vec<u8> = Vec::new();
        put_words(&mut suites, &self.cipher_suites);
        assert(suites@ =~= word_bytes(self.cipher_suites@));
        wire::put_vec16(&mut out, &suites);
        wire::put_vec8(&mut out, &self.compression_methods);
        assert(out@ =~= prefix_bytes(hello_prefix(self@))) by {
            reveal(prefix_bytes);
        }

        let mut list: Vec<u8> = Vec::new();
        let ghost ext = extension_list(self.extensions@);
        reveal_with_fuel(extensions::ext_list_bytes, 3);
        if let Some(v) = &self.extensions.supported_versions {
            let data = v.encode();
            extensions::put_ext(&mut list, SUPPORTED_VERSIONS, &data);
        }
        if let Some(v) = &self.extensions.encrypted_client_hello {
            let data = v.encode();
            extensions::put_ext(&mut list, ENCRYPTED_CLIENT_HELLO, &data);
        }
        assert(list@ =~= extensions::ext_list_bytes(ext));
        if list.len() > 0 {
            wire::put_vec16(&mut out, &list);
        }
        assert(out@ =~= hello_bytes(self@));
        out
    }
}

/// How the fields of a ClientHello in front of its extensions are laid out.
pub proof fn fields_are_laid_out(p: PrefixView)
    requires
        prefix_fits(p),
    ensures
        prefix_bytes(p) == seq![(p.version / 256) as u8, (p.version % 256) as u8] + p.random + seq![
            p.session_id.len() as u8,
        ] + p.session_id + seq![
            (p.cipher_suites.len() / 256) as u8,
            (p.cipher_suites.len() % 256) as u8,
        ] + p.cipher_suites + seq![p.compression.len() as u8] + p.compression,
        p.random.len() == 32,
{
    reveal(prefix_bytes);
    assert(prefix_bytes(p) =~= seq![(p.version / 256) as u8, (p.version % 256) as u8] + p.random
        + seq![p.session_id.len() as u8] + p.session_id + seq![
        (p.cipher_suites.len() / 256) as u8,
        (p.cipher_suites.len() % 256) as u8,
    ] + p.cipher_suites + seq![p.compression.len() as u8] + p.compression);
}

/// Fields of every length that their length bytes can give are accepted.
pub proof fn fields_may_have_any_length(p: PrefixView)
    ensures
        prefix_fits(p) <==> p.random.len() == 32 && p.session_id.len() <= 255
            && p.cipher_suites.len() <= 65535 && p.compression.len() <= 255,
{
}

/// A list of 16-bit integers is read two bytes at a time.
pub proof fn words_are_read_in_pairs(s: Seq<u8>, i: int)
    ensures
        words(s) is Some <==> s.len() % 2 == 0,
        words(s) matches Some(w) ==> {
            &&& 2 * w.len() == s.len()
            &&& 0 <= i < w.len() ==> w[i] == s[2 * i] * 256 + s[2 * i + 1]
        },
{
}

/// What a list of versions offers, whatever other versions it holds: TLS 1.3 if it
/// holds 0x0304, and TLS 1.2 if it holds 0x0303.
pub proof fn versions_are_offered_if_listed(w: Seq<u16>)
    requires
        0 < w.len() <= 127,
    ensures
        supported_versions_of(seq![(2 * w.len()) as u8] + word_bytes(w)) matches Some(v) && (
        v.tls13 <==> exists|i: int| 0 <= i < w.len() && #[trigger] w[i] == 0x0304u16) && (v.tls12
            <==> exists|i: int| 0 <= i < w.len() && #[trigger] w[i] == 0x0303u16),
{
    let list = word_bytes(w);
    assert(seq![(2 * w.len()) as u8] + list =~= wire::vec8(list) + Seq::empty());
    wire::lemma_take_vec8(list, Seq::empty());
    lemma_words(w);
    if w.contains(TLS13) {
        let i = choose|i: int| 0 <= i < w.len() && w[i] == TLS13;
        assert(w[i] == 0x0304u16);
    }
    if w.contains(TLS12) {
        let i = choose|i: int| 0 <= i < w.len() && w[i] == TLS12;
        assert(w[i] == 0x0303u16);
    }
}

/// The same from the bytes of the extension: it is well formed if and only if its
/// length byte counts a positive even number of bytes, and these are all there is.
pub proof fn versions_are_read_from_their_bytes(data: Seq<u8>)
    ensures
        supported_versions_of(data) is Some <==> data.len() > 1 && data.len() == 1 + data[0]
            && data[0] % 2 == 0,
        supported_versions_of(data) matches Some(v) ==> {
            &&& v.tls13 <==> exists|i: int|
                0 <= i < data[0] / 2 && #[trigger] data[1 + 2 * i] == 3 && data[2 + 2 * i] == 4
            &&& v.tls12 <==> exists|i: int|
                0 <= i < data[0] / 2 && #[trigger] data[1 + 2 * i] == 3 && data[2 + 2 * i] == 3
        },
{
    if let Some(v) = supported_versions_of(data) {
        let list = (wire::take_vec8(data)->0).0;
        let w = words(list)->0;
        assert forall|i: int| 0 <= i < w.len() implies #[trigger] w[i] == data[1 + 2 * i] * 256
            + data[2 + 2 * i] by {
            assert(list[2 * i] == data[1 + 2 * i]);
            assert(list[2 * i + 1] == data[2 + 2 * i]);
        }
        if v.tls13 {
            let i = choose|i: int| 0 <= i < w.len() && w[i] == TLS13;
            assert(data[1 + 2 * i] == 3 && data[2 + 2 * i] == 4);
        }
        if v.tls12 {
            let i = choose|i: int| 0 <= i < w.len() && w[i] == TLS12;
            assert(data[1 + 2 * i] == 3 && data[2 + 2 * i] == 3);
        }
        if exists|i: int|
            0 <= i < data[0] / 2 && #[trigger] data[1 + 2 * i] == 3 && data[2 + 2 * i] == 4 {
            let i = choose|i: int|
                0 <= i < data[0] / 2 && #[trigger] data[1 + 2 * i] == 3 && data[2 + 2 * i] == 4;
            assert(w[i] == TLS13);
        }
        if exists|i: int|
            0 <= i < data[0] / 2 && #[trigger] data[1 + 2 * i] == 3 && data[2 + 2 * i] == 3 {
            let i = choose|i: int|
                0 <= i < data[0] / 2 && #[trigger] data[1 + 2 * i] == 3 && data[2 + 2 * i] == 3;
            assert(w[i] == TLS12);
        }
    }
}

/// How the two forms of the `encrypted_client_hello` extension are laid out.
pub proof fn ech_extension_is_laid_out(o: OuterView)
    requires
        o.enc.len() < 65536,
        o.payload.len() < 65536,
    ensures
        ech_data(EchExtView::Inner) == seq![1u8],
        ech_data(EchExtView::Outer(o)) == seq![
            0u8,
            (o.cipher_suite.kdf_id / 256) as u8,
            (o.cipher_suite.kdf_id % 256) as u8,
            (o.cipher_suite.aead_id / 256) as u8,
            (o.cipher_suite.aead_id % 256) as u8,
            o.config_id,
            (o.enc.len() / 256) as u8,
            (o.enc.len() % 256) as u8,
        ] + o.enc + seq![(o.payload.len() / 256) as u8, (o.payload.len() % 256) as u8] + o.payload,
{
    assert(ech_data(EchExtView::Outer(o)) =~= seq![
        0u8,
        (o.cipher_suite.kdf_id / 256) as u8,
        (o.cipher_suite.kdf_id % 256) as u8,
        (o.cipher_suite.aead_id / 256) as u8,
        (o.cipher_suite.aead_id % 256) as u8,
        o.config_id,
        (o.enc.len() / 256) as u8,
        (o.enc.len() % 256) as u8,
    ] + o.enc + seq![(o.payload.len() / 256) as u8, (o.payload.len() % 256) as u8] + o.payload);
}

/// An `encrypted_client_hello` extension is read if and only if it is one of the
/// two forms, written out, with a payload in the outer one; what is read is what
/// was written.
pub proof fn ech_extension_is_read_as_written(e: EchExtView, data: Seq<u8>)
    ensures
        ech_data(e).len() < 65536 && (e matches EchExtView::Outer(o) ==> o.payload.len() > 0)
            ==> ech_of(ech_data(e)) == Some(e),
        ech_of(data) matches Some(read) ==> ech_data(read) == data && (
        read matches EchExtView::Outer(o) ==> o.payload.len() > 0),
{
    if ech_data(e).len() < 65536 && (e matches EchExtView::Outer(o) ==> o.payload.len() > 0) {
        lemma_ech_data(e);
    }
    if let Some(read) = ech_of(data) {
        if let EchExtView::Outer(o) = read {
            assert(seq![0u8] + data.skip(1) =~= data);
            lemma_ech_outer_of_read(data.skip(1));
        } else {
            assert(data =~= seq![1u8]);
        }
    }
}

proof fn lemma_six_parts(
    a: Seq<u8>,
    b: Seq<u8>,
    c: Seq<u8>,
    d: Seq<u8>,
    e: Seq<u8>,
    f: Seq<u8>,
)
    ensures
        a + b + c + d + e + f == a + (b + (c + (d + (e + f)))),
{
    assert(a + b + c + d + e + f =~= a + (b + (c + (d + (e + f)))));
}

proof fn lemma_ech_outer_of_read(body: Seq<u8>)
    ensures
        ech_outer_of(body) matches Some(o) ==> ech_data(EchExtView::Outer(o)) == seq![0u8] + body
            && o.payload.len() > 0,
{
    if let Some(o) = ech_outer_of(body) {
        let s1 = (wire::take_u16(body)->0).1;
        let s2 = (wire::take_u16(s1)->0).1;
        let s3 = (wire::take_u8(s2)->0).1;
        let s4 = (wire::take_vec16(s3)->0).1;
        let kdf = wire::be16(o.cipher_suite.kdf_id as int);
        let aead = wire::be16(o.cipher_suite.aead_id as int);
        assert(body == kdf + s1) by {
            assert(body =~= kdf + s1);
        }
        assert(s1 == aead + s2) by {
            assert(s1 =~= aead + s2);
        }
        assert(s2 == seq![o.config_id] + s3) by {
            assert(s2 =~= seq![o.config_id] + s3);
        }
        assert(s3 == wire::vec16(o.enc) + s4) by {
            wire::lemma_vec16_of_taken(s3);
        }
        assert(s4 == wire::vec16(o.payload)) by {
            wire::lemma_vec16_of_taken(s4);
            assert(wire::vec16(o.payload) + Seq::empty() =~= wire::vec16(o.payload));
            assert((wire::take_vec16(s4)->0).1 =~= Seq::empty());
        }
        lemma_six_parts(
            seq![0u8],
            kdf,
            aead,
            seq![o.config_id],
            wire::vec16(o.enc),
            wire::vec16(o.payload),
        );
    }
}

/// Whether the extensions of a ClientHello are as they must be: each fits behind
/// its length, no type occurs twice, nothing follows `pre_shared_key`, and the two
/// that are looked into are well formed.
pub open spec fn extensions_fit(list: Seq<extensions::RawExtension>) -> bool {
    &&& extensions::ext_list_bytes(list).len() < 65536
    &&& forall|i: int| 0 <= i < list.len() ==> (#[trigger] list[i]).data.len() < 65536
    &&& forall|i: int, j: int|
        0 <= i < j < list.len() ==> (#[trigger] list[i]).typ != (#[trigger] list[j]).typ
    &&& forall|i: int| 0 <= i < list.len() - 1 ==> (#[trigger] list[i]).typ != 0x0029
    &&& forall|i: int|
        0 <= i < list.len() && (#[trigger] list[i]).typ == 0x002b ==> supported_versions_of(
            list[i].data,
        ) is Some
    &&& forall|i: int|
        0 <= i < list.len() && (#[trigger] list[i]).typ == 0xfe0d ==> ech_of(list[i].data) is Some
}

/// A ClientHello is read with any extensions, in any order: its fields are those
/// that were written, and what its extensions say is what the one of the type in
/// question says, wherever it stands.
pub proof fn hello_is_read_with_any_extensions(
    p: PrefixView,
    list: Seq<extensions::RawExtension>,
    i: int,
)
    requires
        prefix_fits(p),
        p.session_id.len() <= 32,
        p.cipher_suites.len() > 0,
        p.cipher_suites.len() % 2 == 0,
        p.compression.len() > 0,
        extensions_fit(list),
    ensures
        parsed_hello(prefix_bytes(p) + wire::vec16(extensions::ext_list_bytes(list))) matches Some(
            h,
        ) && {
            &&& h.client_version == p.version
            &&& h.random == p.random
            &&& h.session_id == p.session_id
            &&& 2 * h.cipher_suites.len() == p.cipher_suites.len()
            &&& forall|j: int|
                0 <= j < h.cipher_suites.len() ==> #[trigger] h.cipher_suites[j]
                    == p.cipher_suites[2 * j] * 256 + p.cipher_suites[2 * j + 1]
            &&& h.compression_methods == p.compression
            &&& 0 <= i < list.len() && list[i].typ == 0x002b ==> h.extensions.supported_versions
                == supported_versions_of(list[i].data)
            &&& 0 <= i < list.len() && list[i].typ == 0xfe0d
                ==> h.extensions.encrypted_client_hello == ech_of(list[i].data)
            &&& (forall|j: int| 0 <= j < list.len() ==> (#[trigger] list[j]).typ != 0x002b)
                ==> h.extensions.supported_versions is None
            &&& (forall|j: int| 0 <= j < list.len() ==> (#[trigger] list[j]).typ != 0xfe0d)
                ==> h.extensions.encrypted_client_hello is None
        },
{
    let body = extensions::ext_list_bytes(list);
    lemma_take_prefix(p, wire::vec16(body));
    wire::lemma_take_vec16(body, Seq::empty());
    assert(wire::vec16(body) + Seq::empty() =~= wire::vec16(body));
    extensions::ext_list_round_trip(list);
    assert(extensions_valid(list)) by {
        assert forall|j: int| 0 <= j < list.len() implies #[trigger] extension_valid(list[j]) by {
            assert(list[j].data.len() < 65536);
        }
    }
    extensions::first_extension_of_a_type_is_found(list, SUPPORTED_VERSIONS, i);
    extensions::first_extension_of_a_type_is_found(list, ENCRYPTED_CLIENT_HELLO, i);
    if 0 <= i < list.len() {
        assert(forall|j: int| 0 <= j < i ==> (#[trigger] list[j]).typ != list[i].typ);
    }
}

/// A ClientHello may end behind its fields: it then has no extensions.
pub proof fn hello_is_read_without_extensions(p: PrefixView)
    requires
        prefix_fits(p),
        p.session_id.len() <= 32,
        p.cipher_suites.len() > 0,
        p.cipher_suites.len() % 2 == 0,
        p.compression.len() > 0,
    ensures
        parsed_hello(prefix_bytes(p)) matches Some(h) && h.client_version == p.version && h.random
            == p.random && h.session_id == p.session_id && h.compression_methods == p.compression
            && h.extensions.supported_versions is None && h.extensions.encrypted_client_hello is None,
{
    lemma_take_prefix(p, Seq::empty());
    assert(prefix_bytes(p) + Seq::empty() =~= prefix_bytes(p));
}

/// Nothing else is read as a ClientHello.
pub proof fn only_well_formed_hellos_are_read(s: Seq<u8>)
    requires
        parsed_hello(s) is Some,
    ensures
        exists|p: PrefixView, list: Seq<extensions::RawExtension>| #[trigger]
            is_hello_of(s, p, list),
{
    let (p, rest) = take_prefix(s)->0;
    lemma_prefix_of_taken(s);
    if rest.len() == 0 {
        let list = Seq::<extensions::RawExtension>::empty();
        assert(prefix_bytes(p) + rest =~= prefix_bytes(p));
        assert(extensions::ext_list_bytes(list) =~= Seq::empty());
        assert(is_hello_of(s, p, list));
    } else {
        let (body, behind) = wire::take_vec16(rest)->0;
        let list = extensions::ext_list(body)->0;
        wire::lemma_vec16_of_taken(rest);
        extensions::ext_list_rewrites(body);
        assert(wire::vec16(body) + behind =~= wire::vec16(body));
        assert(extensions_fit(list)) by {
            assert forall|i: int|
                0 <= i < list.len() && (#[trigger] list[i]).typ
                    == 0x002b implies supported_versions_of(list[i].data) is Some by {
                assert(extension_valid(list[i]));
            }
            assert forall|i: int|
                0 <= i < list.len() && (#[trigger] list[i]).typ == 0xfe0d implies ech_of(
                list[i].data,
            ) is Some by {
                assert(extension_valid(list[i]));
            }
        }
        assert(is_hello_of(s, p, list));
    }
}

/// Whether `s` is a ClientHello with the given fields and extensions.
pub open spec fn is_hello_of(
    s: Seq<u8>,
    p: PrefixView,
    list: Seq<extensions::RawExtension>,
) -> bool {
    &&& prefix_fits(p)
    &&& p.session_id.len() <= 32
    &&& p.cipher_suites.len() > 0
    &&& p.cipher_suites.len() % 2 == 0
    &&& p.compression.len() > 0
    &&& extensions_fit(list)
    &&& s == prefix_bytes(p) && list.len() == 0 || s == prefix_bytes(p) + wire::vec16(
        extensions::ext_list_bytes(list),
    )
}

/// How a ClientHello with the two extensions is laid out: its fields, and behind
/// one length the versions and the `encrypted_client_hello` extension, as far as
/// they are there. Without either, the length is left out too.
pub proof fn hellos_are_laid_out(h: HelloView)
    ensures
        ({
            let fields = prefix_bytes(
                PrefixView {
                    version: h.client_version,
                    random: h.random,
                    session_id: h.session_id,
                    cipher_suites: word_bytes(h.cipher_suites),
                    compression: h.compression_methods,
                },
            );
            let versions = match h.extensions.supported_versions {
                Some(v) => seq![
                    extensions::RawExtension { typ: 0x002b, data: supported_versions_data(v) },
                ],
                None => Seq::empty(),
            };
            let ech = match h.extensions.encrypted_client_hello {
                Some(e) => seq![extensions::RawExtension { typ: 0xfe0d, data: ech_data(e) }],
                None => Seq::empty(),
            };
            hello_bytes(h) == if versions.len() + ech.len() == 0 {
                fields
            } else {
                fields + wire::vec16(extensions::ext_list_bytes(versions + ech))
            }
        }),
        supported_versions_data(SupportedProtocolVersions { tls13: true, tls12: true }) == seq![
            4u8,
            3u8,
            4u8,
            3u8,
            3u8,
        ],
        supported_versions_data(SupportedProtocolVersions { tls13: true, tls12: false }) == seq![
            2u8,
            3u8,
            4u8,
        ],
        supported_versions_data(SupportedProtocolVersions { tls13: false, tls12: true }) == seq![
            2u8,
            3u8,
            3u8,
        ],
{
    assert(prefix_bytes(hello_prefix(h)) + Seq::empty() =~= prefix_bytes(hello_prefix(h)));
    assert(supported_versions_data(SupportedProtocolVersions { tls13: true, tls12: true })
        =~= seq![4u8, 3u8, 4u8, 3u8, 3u8]);
    assert(supported_versions_data(SupportedProtocolVersions { tls13: true, tls12: false })
        =~= seq![2u8, 3u8, 4u8]);
    assert(supported_versions_data(SupportedProtocolVersions { tls13: false, tls12: true })
        =~= seq![2u8, 3u8, 3u8]);
}

/// Which ClientHellos can be written and read back.
pub proof fn hellos_of_every_size_are_valid(h: HelloView)
    ensures
        hello_valid(h) <==> {
            &&& h.random.len() == 32
            &&& h.session_id.len() <= 32
            &&& 1 <= h.cipher_suites.len() <= 32767
            &&& 1 <= h.compression_methods.len() <= 255
            &&& h.extensions.supported_versions matches Some(v) ==> v.tls13 || v.tls12
            &&& h.extensions.encrypted_client_hello matches Some(EchExtView::Outer(o))
                ==> o.payload.len() >= 1
            &&& extensions::ext_list_bytes(extension_list(h.extensions)).len() <= 65535
        },
{
}

} // verus!
