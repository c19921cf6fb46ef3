//! ECH configs (RFC 9849, section 4): what a server publishes so that clients
//! can encrypt to it.

use rustls_pki_types::DnsName;
use vstd::prelude::*;

use crate::extensions;
use crate::hpke::{HpkeKem, HpkeSymmetricCipherSuite};
use crate::wire;

verus! {

/// The config version that is understood here.
pub const ECH_VERSION_V18: u16 = 0xfe0d;

/// Whether `name` is a syntactically valid DNS name.
pub uninterp spec fn dns_name_valid(name: Seq<u8>) -> bool;

/// `DnsName::try_from` on bytes, which succeeds if and only if they are a
/// syntactically valid DNS name, a function of the bytes. Such a name has 1 to
/// 253 bytes.
#[verifier::external_body]
fn check_dns_name(name: &[u8]) -> (valid: bool)
    ensures
        valid == dns_name_valid(name@),
        valid ==> 1 <= name@.len() <= 253,
{
    DnsName::try_from(name).is_ok()
}

/// A DNS name.
pub struct PublicName {
    bytes: Vec<u8>,
}

impl View for PublicName {
    type V = Seq<u8>;

    closed spec fn view(&self) -> Seq<u8> {
        self.bytes@
    }
}

impl PublicName {
    #[verifier::type_invariant]
    spec fn inv(self) -> bool {
        dns_name_valid(self.bytes@) && 1 <= self.bytes@.len() <= 253
    }

    /// The name that `bytes` spells, if it is a DNS name.
    pub fn from_slice(bytes: &[u8]) -> (name: Option<PublicName>)
        ensures
            match name {
                Some(name) => dns_name_valid(bytes@) && name@ == bytes@,
                None => !dns_name_valid(bytes@),
            },
    {
        if check_dns_name(bytes) {
            let bytes = vstd::slice::slice_to_vec(bytes);
            Some(PublicName { bytes })
        } else {
            None
        }
    }

    /// The bytes of the name.
    pub fn as_slice(&self) -> (bytes: &[u8])
        ensures
            bytes@ == self@,
            dns_name_valid(bytes@),
            1 <= bytes@.len() <= 253,
    {
        proof {
            use_type_invariant(self);
        }
        self.bytes.as_slice()
    }
}

impl Clone for PublicName {
    fn clone(&self) -> (c: PublicName)
        ensures
            c@ == self@,
    {
        proof {
            use_type_invariant(self);
        }
        let bytes = vstd::slice::slice_to_vec(self.bytes.as_slice());
        PublicName { bytes }
    }
}

/// An extension of a config.
pub struct EchConfigExtension {
    pub typ: u16,
    pub data: Vec<u8>,
}

impl View for EchConfigExtension {
    type V = extensions::RawExtension;

    open spec fn view(&self) -> extensions::RawExtension {
        extensions::RawExtension { typ: self.typ, data: self.data@ }
    }
}

/// The key of a config.
pub struct HpkeKeyConfig {
    pub config_id: u8,
    pub kem_id: HpkeKem,
    pub public_key: Vec<u8>,
    pub symmetric_cipher_suites: Vec<HpkeSymmetricCipherSuite>,
}

/// What a config of the version understood here holds.
pub struct EchConfigContents {
    pub key_config: HpkeKeyConfig,
    pub maximum_name_length: u8,
    pub public_name: PublicName,
    pub extensions: Vec<EchConfigExtension>,
}

/// A config.
pub enum EchConfigPayload {
    /// A config of the version understood here.
    V18(EchConfigContents),
    /// A config of another version.
    Unknown { version: u16, contents: Vec<u8> },
}

/// The value of an [`EchConfigContents`].
#[verifier::ext_equal]
pub struct ContentsView {
    pub config_id: u8,
    pub kem_id: HpkeKem,
    pub public_key: Seq<u8>,
    pub symmetric_cipher_suites: Seq<HpkeSymmetricCipherSuite>,
    pub maximum_name_length: u8,
    pub public_name: Seq<u8>,
    pub extensions: Seq<extensions::RawExtension>,
}

/// The value of an [`EchConfigPayload`].
pub enum ConfigView {
    V18(ContentsView),
    Unknown { version: u16, contents: Seq<u8> },
}

/// The views of a list of extensions.
pub open spec fn extension_views(list: Seq<EchConfigExtension>) -> Seq<extensions::RawExtension> {
    Seq::new(list.len(), |i: int| list[i]@)
}

impl View for EchConfigContents {
    type V = ContentsView;

    open spec fn view(&self) -> ContentsView {
        ContentsView {
            config_id: self.key_config.config_id,
            kem_id: self.key_config.kem_id,
            public_key: self.key_config.public_key@,
            symmetric_cipher_suites: self.key_config.symmetric_cipher_suites@,
            maximum_name_length: self.maximum_name_length,
            public_name: self.public_name@,
            extensions: extension_views(self.extensions@),
        }
    }
}

impl View for EchConfigPayload {
    type V = ConfigView;

    open spec fn view(&self) -> ConfigView {
        match self {
            EchConfigPayload::V18(contents) => ConfigView::V18(contents@),
            EchConfigPayload::Unknown { version, contents } => ConfigView::Unknown {
                version: *version,
                contents: contents@,
            },
        }
    }
}

/// The views of a list of configs.
pub open spec fn config_views(list: Seq<EchConfigPayload>) -> Seq<ConfigView> {
    Seq::new(list.len(), |i: int| list[i]@)
}

/// The bytes of a cipher suite.
pub open spec fn suite_bytes(suite: HpkeSymmetricCipherSuite) -> Seq<u8> {
    wire::be16(suite.kdf_id as int) + wire::be16(suite.aead_id as int)
}

/// The bytes of a list of cipher suites.
pub open spec fn suite_list_bytes(list: Seq<HpkeSymmetricCipherSuite>) -> Seq<u8> {
    Seq::new(4 * list.len(), |i: int| suite_bytes(list[i / 4])[i % 4])
}

/// The cipher suites that `s` holds, if its length fits.
pub open spec fn suite_list(s: Seq<u8>) -> Option<Seq<HpkeSymmetricCipherSuite>> {
    if s.len() % 4 == 0 {
        Some(
            Seq::new(
                s.len() / 4,
                |i: int|
                    HpkeSymmetricCipherSuite {
                        kdf_id: (s[4 * i] * 256 + s[4 * i + 1]) as u16,
                        aead_id: (s[4 * i + 2] * 256 + s[4 * i + 3]) as u16,
                    },
            ),
        )
    } else {
        None
    }
}

/// The bytes of a config's contents.
pub open spec fn contents_bytes(c: ContentsView) -> Seq<u8> {
    seq![c.config_id] + wire::be16(c.kem_id.0 as int) + wire::vec16(c.public_key) + wire::vec16(
        suite_list_bytes(c.symmetric_cipher_suites),
    ) + seq![c.maximum_name_length] + wire::vec8(c.public_name) + wire::vec16(
        extensions::ext_list_bytes(c.extensions),
    )
}

/// The bytes of a config: its version, and its contents behind their length.
pub open spec fn config_bytes(c: ConfigView) -> Seq<u8> {
    match c {
        ConfigView::V18(contents) => wire::be16(ECH_VERSION_V18 as int) + wire::vec16(
            contents_bytes(contents),
        ),
        ConfigView::Unknown { version, contents } => wire::be16(version as int) + wire::vec16(
            contents,
        ),
    }
}

/// The bytes of configs back to back.
pub open spec fn configs_bytes(list: Seq<ConfigView>) -> Seq<u8>
    decreases list.len(),
{
    if list.len() == 0 {
        Seq::empty()
    } else {
        configs_bytes(list.drop_last()) + config_bytes(list.last())
    }
}

/// The bytes of an ECHConfigList: configs behind their common length.
pub open spec fn config_list_bytes(list: Seq<ConfigView>) -> Seq<u8> {
    wire::vec16(configs_bytes(list))
}

/// The contents that `s` starts with, or nothing if they are malformed.
pub open spec fn contents_of(s: Seq<u8>) -> Option<ContentsView> {
    match wire::take_u8(s) {
        None => None,
        Some((config_id, s1)) => match wire::take_u16(s1) {
            None => None,
            Some((kem_id, s2)) => match wire::take_vec16(s2) {
                None => None,
                Some((public_key, s3)) => match wire::take_vec16(s3) {
                    None => None,
                    Some((suites, s4)) => match wire::take_u8(s4) {
                        None => None,
                        Some((maximum_name_length, s5)) => match wire::take_vec8(s5) {
                            None => None,
                            Some((public_name, s6)) => match wire::take_vec16(s6) {
                                None => None,
                                Some((list, _rest)) => if public_key.len() == 0 || suites.len() == 0
                                    || suite_list(suites) is None || !dns_name_valid(public_name)
                                    || extensions::ext_list(list) is None {
                                    None
                                } else {
                                    Some(
                                        ContentsView {
                                            config_id,
                                            kem_id: HpkeKem(kem_id),
                                            public_key,
                                            symmetric_cipher_suites: suite_list(suites)->0,
                                            maximum_name_length,
                                            public_name,
                                            extensions: extensions::ext_list(list)->0,
                                        },
                                    )
                                },
                            },
                        },
                    },
                },
            },
        },
    }
}

/// Reads a config off the front.
pub open spec fn take_config(s: Seq<u8>) -> Option<(ConfigView, Seq<u8>)> {
    match wire::take_u16(s) {
        None => None,
        Some((version, s1)) => match wire::take_vec16(s1) {
            None => None,
            Some((body, rest)) => if version == ECH_VERSION_V18 {
                match contents_of(body) {
                    None => None,
                    Some(contents) => Some((ConfigView::V18(contents), rest)),
                }
            } else {
                Some((ConfigView::Unknown { version, contents: body }, rest))
            },
        },
    }
}

/// Whether a config can be written and read back: its parts fit behind their
/// lengths, and those that must not be empty are not.
pub open spec fn config_valid(c: ConfigView) -> bool {
    match c {
        ConfigView::V18(contents) => {
            &&& contents.public_key.len() > 0
            &&& contents.symmetric_cipher_suites.len() > 0
            &&& dns_name_valid(contents.public_name)
            &&& contents.public_name.len() < 256
            &&& contents_bytes(contents).len() < 65536
        },
        ConfigView::Unknown { version, contents } => version != ECH_VERSION_V18 && contents.len()
            < 65536,
    }
}

proof fn lemma_suite_list(list: Seq<HpkeSymmetricCipherSuite>)
    ensures
        suite_list(suite_list_bytes(list)) == Some(list),
{
    let s = suite_list_bytes(list);
    assert forall|i: int| 0 <= i < list.len() implies #[trigger] (suite_list(s)->0)[i]
        == list[i] by {
        assert(s[4 * i] == suite_bytes(list[i])[0]);
        assert(s[4 * i + 1] == suite_bytes(list[i])[1]);
        assert(s[4 * i + 2] == suite_bytes(list[i])[2]);
        assert(s[4 * i + 3] == suite_bytes(list[i])[3]);
    }
    assert(suite_list(s)->0 =~= list);
}

proof fn lemma_ext_list_len(list: Seq<extensions::RawExtension>, i: int)
    requires
        0 <= i < list.len(),
    ensures
        list[i].data.len() <= extensions::ext_list_bytes(list).len(),
    decreases list.len(),
{
    if i < list.len() - 1 {
        lemma_ext_list_len(list.drop_last(), i);
    }
}

proof fn lemma_contents(c: ContentsView)
    requires
        config_valid(ConfigView::V18(c)),
    ensures
        contents_of(contents_bytes(c)) == Some(c),
{
    let suites = suite_list_bytes(c.symmetric_cipher_suites);
    let list = extensions::ext_list_bytes(c.extensions);
    let t6 = wire::vec16(list);
    let t5 = wire::vec8(c.public_name) + t6;
    let t4 = seq![c.maximum_name_length] + t5;
    let t3 = wire::vec16(suites) + t4;
    let t2 = wire::vec16(c.public_key) + t3;
    let t1 = wire::be16(c.kem_id.0 as int) + t2;
    let s = contents_bytes(c);
    assert(s =~= seq![c.config_id] + t1);
    assert(s.skip(1) =~= t1);
    wire::lemma_take_be16(c.kem_id.0 as int, t2);
    wire::lemma_take_vec16(c.public_key, t3);
    wire::lemma_take_vec16(suites, t4);
    assert(t4.skip(1) =~= t5);
    wire::lemma_take_vec8(c.public_name, t6);
    assert(t6 =~= t6 + Seq::empty());
    wire::lemma_take_vec16(list, Seq::empty());
    lemma_suite_list(c.symmetric_cipher_suites);
    assert forall|i: int| 0 <= i < c.extensions.len() implies (#[trigger] c.extensions[i]).data.len()
        < 65536 by {
        lemma_ext_list_len(c.extensions, i);
    }
    extensions::ext_list_round_trip(c.extensions);
}

/// Reading a config gives back what was written, whatever follows it.
pub proof fn config_round_trip(c: ConfigView, rest: Seq<u8>)
    requires
        config_valid(c),
    ensures
        take_config(config_bytes(c) + rest) == Some((c, rest)),
{
    let (version, body) = match c {
        ConfigView::V18(contents) => (ECH_VERSION_V18, contents_bytes(contents)),
        ConfigView::Unknown { version, contents } => (version, contents),
    };
    assert(config_bytes(c) + rest =~= wire::be16(version as int) + (wire::vec16(body) + rest));
    wire::lemma_take_be16(version as int, wire::vec16(body) + rest);
    wire::lemma_take_vec16(body, rest);
    if let ConfigView::V18(contents) = c {
        lemma_contents(contents);
    }
}

fn read_suites(bytes: &[u8]) -> (r: Option<Vec<HpkeSymmetricCipherSuite>>)
    ensures
        match r {
            Some(list) => suite_list(bytes@) == Some(list@),
            None => suite_list(bytes@) is None,
        },
{
    if bytes.len() % 4 != 0 {
        return None;
    }
    let n = bytes.len() / 4;
    let mut list: Vec<HpkeSymmetricCipherSuite> = Vec::new();
    let mut i: usize = 0;
    while i < n
        invariant
            bytes.len() == 4 * n,
            0 <= i <= n,
            list@ =~= (suite_list(bytes@)->0).take(i as int),
        decreases n - i,
    {
        list.push(
            HpkeSymmetricCipherSuite {
                kdf_id: bytes[4 * i] as u16 * 256 + bytes[4 * i + 1] as u16,
                aead_id: bytes[4 * i + 2] as u16 * 256 + bytes[4 * i + 3] as u16,
            },
        );
        i = i + 1;
    }
    assert(list@ =~= suite_list(bytes@)->0);
    Some(list)
}

fn read_extensions(bytes: &[u8]) -> (r: Option<Vec<EchConfigExtension>>)
    ensures
        match r {
            Some(list) => extensions::ext_list(bytes@) == Some(extension_views(list@)),
            None => extensions::ext_list(bytes@) is None,
        },
{
    let mut reader = wire::Reader::new(bytes);
    let mut list: Vec<EchConfigExtension> = Vec::new();
    proof {
        assert(extension_views(list@) =~= Seq::empty());
        if let Some(all) = extensions::ext_list(bytes@) {
            assert(extension_views(list@) + all =~= all);
        }
    }
    while reader.any_left()
        invariant
            extensions::ext_list(bytes@) == match extensions::ext_list(reader@) {
                Some(rest) => Some(extension_views(list@) + rest),
                None => None,
            },
        decreases reader@.len(),
    {
        let ghost before = reader@;
        let (typ, data) = match extensions::read_ext(&mut reader) {
            Some(e) => e,
            None => return None,
        };
        let ghost done = extension_views(list@);
        list.push(EchConfigExtension { typ, data: vstd::slice::slice_to_vec(data) });
        proof {
            extensions::lemma_ext_of_taken(before);
            let e = extensions::RawExtension { typ, data: data@ };
            assert(extension_views(list@) =~= done.push(e));
            if let Some(rest) = extensions::ext_list(reader@) {
                assert(done + (seq![e] + rest) =~= done.push(e) + rest);
            }
        }
    }
    assert(extension_views(list@) + Seq::empty() =~= extension_views(list@));
    Some(list)
}

fn put_suites(out: &mut Vec<u8>, list: &[HpkeSymmetricCipherSuite])
    ensures
        final(out)@ == old(out)@ + suite_list_bytes(list@),
{
    let ghost start = out@;
    let mut i: usize = 0;
    assert(start + suite_list_bytes(list@.take(0)) =~= start);
    while i < list.len()
        invariant
            0 <= i <= list@.len(),
            out@ == start + suite_list_bytes(list@.take(i as int)),
        decreases list@.len() - i,
    {
        wire::put_u16(out, list[i].kdf_id as usize);
        wire::put_u16(out, list[i].aead_id as usize);
        i = i + 1;
        assert(out@ =~= start + suite_list_bytes(list@.take(i as int)));
    }
    assert(list@.take(i as int) =~= list@);
}

fn put_extensions(out: &mut Vec<u8>, list: &[EchConfigExtension])
    ensures
        final(out)@ == old(out)@ + extensions::ext_list_bytes(extension_views(list@)),
{
    let ghost start = out@;
    let mut i: usize = 0;
    assert(start + extensions::ext_list_bytes(extension_views(list@.take(0))) =~= start);
    while i < list.len()
        invariant
            0 <= i <= list@.len(),
            out@ == start + extensions::ext_list_bytes(extension_views(list@.take(i as int))),
        decreases list@.len() - i,
    {
        extensions::put_ext(out, list[i].typ, &list[i].data);
        i = i + 1;
        proof {
            let done = extension_views(list@.take(i as int));
            assert(done.drop_last() =~= extension_views(list@.take(i - 1)));
            assert(out@ =~= start + extensions::ext_list_bytes(done));
        }
    }
    assert(list@.take(i as int) =~= list@);
}

impl EchConfigContents {
    /// Reads the contents of a config. What follows them is ignored.
    pub fn read(bytes: &[u8]) -> (r: Option<EchConfigContents>)
        ensures
            match r {
                Some(contents) => contents_of(bytes@) == Some(contents@),
                None => contents_of(bytes@) is None,
            },
    {
        let mut r = wire::Reader::new(bytes);
        let config_id: u8 = match r.u8() {
            Some(id) => id,
            None => return None,
        };
        let kem_id: u16 = match r.u16() {
            Some(id) => id,
            None => return None,
        };
        let public_key = match r.vec16() {
            Some(key) => key,
            None => return None,
        };
        let suites = match r.vec16() {
            Some(suites) => suites,
            None => return None,
        };
        let maximum_name_length: u8 = match r.u8() {
            Some(n) => n,
            None => return None,
        };
        let name = match r.vec8() {
            Some(name) => name,
            None => return None,
        };
        let list = match r.vec16() {
            Some(list) => list,
            None => return None,
        };
        if public_key.len() == 0 || suites.len() == 0 {
            return None;
        }
        let symmetric_cipher_suites = match read_suites(suites) {
            Some(suites) => suites,
            None => return None,
        };
        let public_name = match PublicName::from_slice(name) {
            Some(name) => name,
            None => return None,
        };
        let extensions = match read_extensions(list) {
            Some(list) => list,
            None => return None,
        };
        Some(
            EchConfigContents {
                key_config: HpkeKeyConfig {
                    config_id,
                    kem_id: HpkeKem(kem_id),
                    public_key: vstd::slice::slice_to_vec(public_key),
                    symmetric_cipher_suites,
                },
                maximum_name_length,
                public_name,
                extensions,
            },
        )
    }

    fn encode(&self) -> (bytes: Vec<u8>)
        ensures
            bytes@ == contents_bytes(self@),
    {
        let mut suites: Vec<u8> = Vec::new();
        put_suites(&mut suites, &self.key_config.symmetric_cipher_suites);
        let mut list: Vec<u8> = Vec::new();
        put_extensions(&mut list, &self.extensions);
        assert(suites@ =~= suite_list_bytes(self@.symmetric_cipher_suites));
        assert(list@ =~= extensions::ext_list_bytes(self@.extensions));
        let mut out: Vec<u8> = Vec::new();
        out.push(self.key_config.config_id);
        wire::put_u16(&mut out, self.key_config.kem_id.0 as usize);
        wire::put_vec16(&mut out, &self.key_config.public_key);
        wire::put_vec16(&mut out, &suites);
        out.push(self.maximum_name_length);
        wire::put_vec8(&mut out, self.public_name.as_slice());
        wire::put_vec16(&mut out, &list);
        assert(out@ =~= contents_bytes(self@));
        out
    }
}

impl Clone for EchConfigContents {
    fn clone(&self) -> (c: EchConfigContents)
        ensures
            c@ == self@,
    {
        let mut extensions: Vec<EchConfigExtension> = Vec::new();
        let mut i: usize = 0;
        while i < self.extensions.len()
            invariant
                0 <= i <= self.extensions@.len(),
                extension_views(extensions@) =~= extension_views(self.extensions@).take(i as int),
            decreases self.extensions@.len() - i,
        {
            let e = &self.extensions[i];
            let ghost done = extension_views(extensions@);
            extensions.push(
                EchConfigExtension { typ: e.typ, data: vstd::slice::slice_to_vec(e.data.as_slice()) },
            );
            assert(extension_views(extensions@) =~= done.push(e@));
            i = i + 1;
        }
        assert(extension_views(extensions@) =~= extension_views(self.extensions@));
        let symmetric_cipher_suites = vstd::slice::slice_to_vec(
            self.key_config.symmetric_cipher_suites.as_slice(),
        );
        EchConfigContents {
            key_config: HpkeKeyConfig {
                config_id: self.key_config.config_id,
                kem_id: self.key_config.kem_id,
                public_key: vstd::slice::slice_to_vec(self.key_config.public_key.as_slice()),
                symmetric_cipher_suites,
            },
            maximum_name_length: self.maximum_name_length,
            public_name: self.public_name.clone(),
            extensions,
        }
    }
}

impl EchConfigPayload {
    /// Reads a config. What is consumed on failure is left open.
    pub fn read(r: &mut wire::Reader) -> (config: Option<EchConfigPayload>)
        ensures
            match config {
                Some(config) => take_config(old(r)@) == Some((config@, final(r)@)),
                None => take_config(old(r)@) is None,
            },
    {
        let version: u16 = match r.u16() {
            Some(version) => version,
            None => return None,
        };
        let body = match r.vec16() {
            Some(body) => body,
            None => return None,
        };
        if version == ECH_VERSION_V18 {
            match EchConfigContents::read(body) {
                Some(contents) => Some(EchConfigPayload::V18(contents)),
                None => None,
            }
        } else {
            Some(EchConfigPayload::Unknown { version, contents: vstd::slice::slice_to_vec(body) })
        }
    }

    /// Appends the config.
    pub fn encode(&self, out: &mut Vec<u8>)
        ensures
            final(out)@ == old(out)@ + config_bytes(self@),
    {
        match self {
            EchConfigPayload::V18(contents) => {
                let body = contents.encode();
                wire::put_u16(out, ECH_VERSION_V18 as usize);
                wire::put_vec16(out, &body);
            },
            EchConfigPayload::Unknown { version, contents } => {
                wire::put_u16(out, *version as usize);
                wire::put_vec16(out, contents);
            },
        }
        assert(out@ =~= old(out)@ + config_bytes(self@));
    }
}

impl Clone for EchConfigPayload {
    fn clone(&self) -> (c: EchConfigPayload)
        ensures
            c@ == self@,
    {
        match self {
            EchConfigPayload::V18(contents) => EchConfigPayload::V18(contents.clone()),
            EchConfigPayload::Unknown { version, contents } => EchConfigPayload::Unknown {
                version: *version,
                contents: vstd::slice::slice_to_vec(contents.as_slice()),
            },
        }
    }
}

/// Appends an ECHConfigList of the given configs.
pub fn put_config_list(out: &mut Vec<u8>, list: &[EchConfigPayload])
    ensures
        final(out)@ == old(out)@ + config_list_bytes(config_views(list@)),
{
    let mut body: Vec<u8> = Vec::new();
    let mut i: usize = 0;
    assert(body@ =~= configs_bytes(config_views(list@.take(0))));
    while i < list.len()
        invariant
            0 <= i <= list@.len(),
            body@ == configs_bytes(config_views(list@.take(i as int))),
        decreases list@.len() - i,
    {
        list[i].encode(&mut body);
        i = i + 1;
        proof {
            let done = config_views(list@.take(i as int));
            assert(done.drop_last() =~= config_views(list@.take(i - 1)));
            assert(done.last() == list@[i - 1]@);
        }
    }
    assert(list@.take(i as int) =~= list@);
    wire::put_vec16(out, &body);
}

/// How the contents of a config are laid out.
pub proof fn contents_are_laid_out(c: ContentsView)
    requires
        config_valid(ConfigView::V18(c)),
    ensures
        contents_bytes(c) == seq![
            c.config_id,
            (c.kem_id.0 / 256) as u8,
            (c.kem_id.0 % 256) as u8,
            (c.public_key.len() / 256) as u8,
            (c.public_key.len() % 256) as u8,
        ] + c.public_key + seq![
            (4 * c.symmetric_cipher_suites.len() / 256) as u8,
            (4 * c.symmetric_cipher_suites.len() % 256) as u8,
        ] + suite_list_bytes(c.symmetric_cipher_suites) + seq![
            c.maximum_name_length,
            c.public_name.len() as u8,
        ] + c.public_name + wire::vec16(extensions::ext_list_bytes(c.extensions)),
{
    let a = seq![
        c.config_id,
        (c.kem_id.0 / 256) as u8,
        (c.kem_id.0 % 256) as u8,
        (c.public_key.len() / 256) as u8,
        (c.public_key.len() % 256) as u8,
    ];
    let b = seq![
        (4 * c.symmetric_cipher_suites.len() / 256) as u8,
        (4 * c.symmetric_cipher_suites.len() % 256) as u8,
    ];
    let d = seq![c.maximum_name_length, c.public_name.len() as u8];
    let suites = suite_list_bytes(c.symmetric_cipher_suites);
    let list = wire::vec16(extensions::ext_list_bytes(c.extensions));
    lemma_suites_in_config(c);
    assert(a + c.public_key =~= seq![c.config_id] + wire::be16(c.kem_id.0 as int) + wire::vec16(
        c.public_key,
    ));
    assert(b + suites =~= wire::vec16(suites));
    assert(d + c.public_name =~= seq![c.maximum_name_length] + wire::vec8(c.public_name));
    lemma_four_groups(
        a + c.public_key,
        b,
        suites,
        d,
        c.public_name,
        seq![c.maximum_name_length],
        wire::vec8(c.public_name),
        list,
    );
}

proof fn lemma_suites_in_config(c: ContentsView)
    requires
        config_valid(ConfigView::V18(c)),
    ensures
        suite_list_bytes(c.symmetric_cipher_suites).len() == 4 * c.symmetric_cipher_suites.len(),
        4 * c.symmetric_cipher_suites.len() < 65536,
        c.public_key.len() < 65536,
{
    assert(contents_bytes(c).len() >= suite_list_bytes(c.symmetric_cipher_suites).len());
    assert(contents_bytes(c).len() >= c.public_key.len());
}

proof fn lemma_four_groups(
    a: Seq<u8>,
    b: Seq<u8>,
    suites: Seq<u8>,
    d: Seq<u8>,
    name: Seq<u8>,
    d1: Seq<u8>,
    d2: Seq<u8>,
    list: Seq<u8>,
)
    requires
        d + name == d1 + d2,
    ensures
        a + b + suites + d + name + list == a + (b + suites) + d1 + d2 + list,
{
    assert(a + b + suites + d + name + list =~= a + (b + suites) + (d + name) + list);
    assert(a + (b + suites) + d1 + d2 + list =~= a + (b + suites) + (d1 + d2) + list);
}

/// How a list of cipher suites is laid out: 4 bytes for each.
pub proof fn suites_are_laid_out(list: Seq<HpkeSymmetricCipherSuite>, i: int)
    requires
        0 <= i < list.len(),
    ensures
        suite_list_bytes(list).len() == 4 * list.len(),
        suite_list_bytes(list)[4 * i] * 256 + suite_list_bytes(list)[4 * i + 1] == list[i].kdf_id,
        suite_list_bytes(list)[4 * i + 2] * 256 + suite_list_bytes(list)[4 * i + 3]
            == list[i].aead_id,
{
    assert(suite_list_bytes(list)[4 * i] == suite_bytes(list[i])[0]);
    assert(suite_list_bytes(list)[4 * i + 1] == suite_bytes(list[i])[1]);
    assert(suite_list_bytes(list)[4 * i + 2] == suite_bytes(list[i])[2]);
    assert(suite_list_bytes(list)[4 * i + 3] == suite_bytes(list[i])[3]);
}

/// How configs and lists of them are laid out: a version and a length in front of
/// the contents, and one length in front of all configs.
pub proof fn configs_are_laid_out(c: ConfigView, front: Seq<ConfigView>)
    ensures
        c matches ConfigView::V18(contents) ==> (contents_bytes(contents).len() < 65536
            ==> config_bytes(c) == seq![
            0xfeu8,
            0x0du8,
            (contents_bytes(contents).len() / 256) as u8,
            (contents_bytes(contents).len() % 256) as u8,
        ] + contents_bytes(contents)),
        c matches ConfigView::Unknown { version, contents } ==> (contents.len() < 65536
            ==> config_bytes(c) == seq![
            (version / 256) as u8,
            (version % 256) as u8,
            (contents.len() / 256) as u8,
            (contents.len() % 256) as u8,
        ] + contents),
        configs_bytes(Seq::empty()) == Seq::<u8>::empty(),
        configs_bytes(front.push(c)) == configs_bytes(front) + config_bytes(c),
        configs_bytes(front).len() < 65536 ==> config_list_bytes(front) == seq![
            (configs_bytes(front).len() / 256) as u8,
            (configs_bytes(front).len() % 256) as u8,
        ] + configs_bytes(front),
{
    assert(front.push(c).drop_last() =~= front);
    match c {
        ConfigView::V18(contents) => {
            lemma_framed(ECH_VERSION_V18, contents_bytes(contents));
        },
        ConfigView::Unknown { version, contents } => {
            lemma_framed(version, contents);
        },
    }
    lemma_framed(0, configs_bytes(front));
}

proof fn lemma_framed(version: u16, body: Seq<u8>)
    ensures
        body.len() < 65536 ==> {
            &&& wire::vec16(body) == seq![
                (body.len() / 256) as u8,
                (body.len() % 256) as u8,
            ] + body
            &&& wire::be16(version as int) + wire::vec16(body) == seq![
                (version / 256) as u8,
                (version % 256) as u8,
                (body.len() / 256) as u8,
                (body.len() % 256) as u8,
            ] + body
        },
{
    if body.len() < 65536 {
        assert(wire::vec16(body) =~= seq![(body.len() / 256) as u8, (body.len() % 256) as u8]
            + body);
        assert(wire::be16(version as int) + wire::vec16(body) =~= seq![
            (version / 256) as u8,
            (version % 256) as u8,
            (body.len() / 256) as u8,
            (body.len() % 256) as u8,
        ] + body);
    }
}

/// What a config must be to be written and read back: no list that must hold
/// something is empty, its name is a DNS name, and its contents fit behind their
/// length.
pub proof fn configs_of_every_size_are_valid(c: ContentsView)
    ensures
        config_valid(ConfigView::V18(c)) <==> c.public_key.len() > 0
            && c.symmetric_cipher_suites.len() > 0 && dns_name_valid(c.public_name)
            && c.public_name.len() <= 255 && contents_bytes(c).len() <= 65535,
{
}

/// A config that is read has a public key, cipher suites and a DNS name.
pub proof fn read_configs_are_complete(s: Seq<u8>)
    ensures
        take_config(s) matches Some((c, rest)) ==> (c matches ConfigView::V18(contents)
            ==> contents.public_key.len() > 0 && contents.symmetric_cipher_suites.len() > 0
            && dns_name_valid(contents.public_name)),
{
}

/// What follows the contents of a config behind its length is ignored.
pub proof fn more_contents_are_ignored(c: ContentsView, more: Seq<u8>)
    requires
        config_valid(ConfigView::V18(c)),
    ensures
        contents_of(contents_bytes(c) + more) == Some(c),
{
    let suites = suite_list_bytes(c.symmetric_cipher_suites);
    let list = extensions::ext_list_bytes(c.extensions);
    let t6 = wire::vec16(list) + more;
    let t5 = wire::vec8(c.public_name) + t6;
    let t4 = seq![c.maximum_name_length] + t5;
    let t3 = wire::vec16(suites) + t4;
    let t2 = wire::vec16(c.public_key) + t3;
    let t1 = wire::be16(c.kem_id.0 as int) + t2;
    let s = contents_bytes(c) + more;
    assert(s =~= seq![c.config_id] + t1);
    assert(s.skip(1) =~= t1);
    wire::lemma_take_be16(c.kem_id.0 as int, t2);
    wire::lemma_take_vec16(c.public_key, t3);
    wire::lemma_take_vec16(suites, t4);
    assert(t4.skip(1) =~= t5);
    wire::lemma_take_vec8(c.public_name, t6);
    wire::lemma_take_vec16(list, more);
    lemma_suite_list(c.symmetric_cipher_suites);
    assert forall|i: int| 0 <= i < c.extensions.len() implies (#[trigger] c.extensions[i]).data.len()
        < 65536 by {
        lemma_ext_list_len(c.extensions, i);
    }
    extensions::ext_list_round_trip(c.extensions);
}

} // verus!
