//! Server-side ECH keys.

use vstd::prelude::*;

use crate::ech_config;
use crate::ech_config::{EchConfigContents, EchConfigPayload, HpkeKeyConfig, PublicName};
use crate::error::Error;
use crate::hpke::{Hpke, HpkePrivateKey, HpkePublicKey, HpkeSuite, HpkeSymmetricCipherSuite};
use crate::wire;

verus! {

/// `"tls ech"` and a zero byte.
pub const INFO_PREFIX: [u8; 8] = [0x74, 0x6c, 0x73, 0x20, 0x65, 0x63, 0x68, 0x00];

/// A server-side ECH key, pairing a published ECH config with the corresponding
/// HPKE private key.
///
/// Multiple keys can be configured on a server to support key rotation: publish
/// new configs in DNS while still accepting connections encrypted to old configs
/// during the DNS TTL transition period.
pub struct EchServerKey<H> {
    /// The public ECH config (published in DNS HTTPS records).
    pub config: EchConfigPayload,
    /// The HPKE private key corresponding to the config's public key.
    pub private_key: HpkePrivateKey,
    /// Available HPKE implementations.
    pub hpke_suites: Vec<H>,
    /// Whether this config should be included in retry_configs on ECH rejection.
    pub is_retry_config: bool,
}

/// Whether a suite can be used with a config.
pub open spec fn suite_fits(suite: HpkeSuite, contents: ech_config::ContentsView) -> bool {
    suite.kem == contents.kem_id && contents.symmetric_cipher_suites.contains(suite.sym)
}

/// The implementations whose suites can be used with a config, in order.
pub open spec fn fitting<H: Hpke>(suites: Seq<H>, contents: ech_config::ContentsView) -> Seq<H> {
    suites.filter(|s: H| suite_fits(s.implements(), contents))
}

/// The config that `bytes` start with and the implementations that can be used
/// with it, or why there are none.
pub open spec fn loaded<H: Hpke>(bytes: Seq<u8>, suites: Seq<H>) -> Result<
    (ech_config::ContentsView, Seq<H>),
    Seq<char>,
> {
    match ech_config::take_config(bytes) {
        None => Err("invalid ECH config"@),
        Some((ech_config::ConfigView::Unknown { .. }, _)) => Err("unsupported ECH config version"@),
        Some((ech_config::ConfigView::V18(contents), _)) => {
            let fit = fitting(suites, contents);
            if fit.len() == 0 {
                Err("no matching HPKE suite for ECH config"@)
            } else {
                Ok((contents, fit))
            }
        },
    }
}

/// The HPKE info parameter for a config.
pub open spec fn info_of(config: ech_config::ConfigView) -> Seq<u8> {
    INFO_PREFIX@ + ech_config::config_bytes(config)
}

/// The config of a new key.
pub open spec fn new_config(
    suite: HpkeSuite,
    config_id: u8,
    public_name: Seq<u8>,
    maximum_name_length: u8,
    public_key: Seq<u8>,
) -> ech_config::ConfigView {
    ech_config::ConfigView::V18(
        ech_config::ContentsView {
            config_id,
            kem_id: suite.kem,
            public_key,
            symmetric_cipher_suites: seq![suite.sym],
            maximum_name_length,
            public_name,
            extensions: Seq::empty(),
        },
    )
}

/// Whether `list` holds `suite`.
pub fn contains_suite(list: &[HpkeSymmetricCipherSuite], suite: HpkeSymmetricCipherSuite) -> (b:
    bool)
    ensures
        b == list@.contains(suite),
{
    let mut i: usize = 0;
    while i < list.len()
        invariant
            0 <= i <= list@.len(),
            forall|j: int| 0 <= j < i ==> list@[j] != suite,
        decreases list@.len() - i,
    {
        if list[i] == suite {
            return true;
        }
        i = i + 1;
    }
    false
}

fn select_fitting<H: Hpke>(suites: &[H], contents: &EchConfigContents) -> (fit: Vec<H>)
    ensures
        fit@ == fitting(suites@, contents@),
{
    let mut fit: Vec<H> = Vec::new();
    let mut i: usize = 0;
    reveal(Seq::filter);
    while i < suites.len()
        invariant
            0 <= i <= suites@.len(),
            fit@ =~= fitting(suites@.take(i as int), contents@),
        decreases suites@.len() - i,
    {
        let suite = suites[i].suite();
        if suite.kem == contents.key_config.kem_id && contains_suite(
            &contents.key_config.symmetric_cipher_suites,
            suite.sym,
        ) {
            fit.push(suites[i]);
        }
        proof {
            reveal(Seq::filter);
            assert(suites@.take(i + 1).drop_last() =~= suites@.take(i as int));
        }
        i = i + 1;
    }
    assert(suites@.take(i as int) =~= suites@);
    fit
}

impl<H: Hpke> EchServerKey<H> {
    /// Create a new ECH server key from an ECH config, private key, and HPKE suite.
    ///
    /// The `private_key` must correspond to the public key in `config`.
    /// By default the key is marked as a retry config (sent to clients on ECH rejection).
    pub fn new(config: EchConfigPayload, private_key: HpkePrivateKey, suite: H) -> (key:
        EchServerKey<H>)
        ensures
            key.config == config,
            key.private_key == private_key,
            key.hpke_suites@ == seq![suite],
            key.is_retry_config,
    {
        let hpke_suites = vec![suite];
        assert(hpke_suites@ =~= seq![suite]);
        EchServerKey { config, private_key, hpke_suites, is_retry_config: true }
    }

    /// Create an ECH server key from a raw ECHConfig and private key bytes.
    ///
    /// `config_bytes` should be a single serialized ECHConfig (not an ECHConfigList).
    /// All suites from `hpke_suites` matching the config's KEM and cipher suites
    /// are retained.
    ///
    /// Returns an error if the config cannot be parsed or no matching HPKE suite
    /// is found.
    pub fn from_raw(config_bytes: &[u8], private_key_bytes: Vec<u8>, hpke_suites: &[H]) -> (r:
        Result<EchServerKey<H>, Error>)
        ensures
            match r {
                Ok(key) => loaded(config_bytes@, hpke_suites@) matches Ok((contents, fit))
                    && key.config@ == ech_config::ConfigView::V18(contents) && key.hpke_suites@
                    == fit && key.private_key@ == private_key_bytes@ && key.is_retry_config,
                Err(e) => loaded(config_bytes@, hpke_suites@) matches Err(message) && e@
                    == crate::error::ErrorView::General(message),
            },
    {
        let mut reader = wire::Reader::new(config_bytes);
        let contents = match EchConfigPayload::read(&mut reader) {
            None => return Err(Error::General("invalid ECH config".to_string())),
            Some(EchConfigPayload::Unknown { .. }) => return Err(
                Error::General("unsupported ECH config version".to_string()),
            ),
            Some(EchConfigPayload::V18(contents)) => contents,
        };
        let fit = select_fitting(hpke_suites, &contents);
        if fit.len() == 0 {
            return Err(Error::General("no matching HPKE suite for ECH config".to_string()));
        }
        Ok(
            EchServerKey {
                config: EchConfigPayload::V18(contents),
                private_key: HpkePrivateKey::from_bytes(private_key_bytes),
                hpke_suites: fit,
                is_retry_config: true,
            },
        )
    }

    /// Set whether this config should be included in retry_configs on ECH rejection.
    ///
    /// Non-retry configs are still used for decryption but not sent to clients
    /// on rejection (useful for old keys being rotated out).
    pub fn with_retry(self, is_retry: bool) -> (key: EchServerKey<H>)
        ensures
            key == (EchServerKey { is_retry_config: is_retry, ..self }),
    {
        EchServerKey {
            config: self.config,
            private_key: self.private_key,
            hpke_suites: self.hpke_suites,
            is_retry_config: is_retry,
        }
    }

    /// Return the raw private key bytes.
    ///
    /// This is useful for persisting the key to disk so it can be reloaded
    /// later with [`EchServerKey::from_raw`].
    pub fn private_key_bytes(&self) -> (bytes: &[u8])
        ensures
            bytes@ == self.private_key@,
    {
        self.private_key.secret_bytes()
    }

    /// The ID of the config, if its version is understood.
    pub fn config_id(&self) -> (id: Option<u8>)
        ensures
            id == match self.config@ {
                ech_config::ConfigView::V18(contents) => Some(contents.config_id),
                ech_config::ConfigView::Unknown { .. } => None,
            },
    {
        match &self.config {
            EchConfigPayload::V18(contents) => Some(contents.key_config.config_id),
            EchConfigPayload::Unknown { .. } => None,
        }
    }

    /// Compute the HPKE info parameter: `"tls ech" || 0x00 || ECHConfig`.
    pub fn hpke_info(&self) -> (info: Vec<u8>)
        ensures
            info@ == info_of(self.config@),
    {
        let mut info: Vec<u8> = Vec::new();
        wire::put_bytes(&mut info, &INFO_PREFIX);
        self.config.encode(&mut info);
        assert(info@ =~= info_of(self.config@));
        info
    }
}

/// A key whose config was written out and whose private key was kept loads
/// again: the config is the same, and every implementation that fits it is
/// there. What stands behind the config makes no difference.
pub proof fn saved_key_loads_again<H: Hpke>(
    contents: ech_config::ContentsView,
    rest: Seq<u8>,
    suites: Seq<H>,
    i: int,
)
    requires
        ech_config::config_valid(ech_config::ConfigView::V18(contents)),
        0 <= i < suites.len(),
        suite_fits(suites[i].implements(), contents),
    ensures
        loaded(
            ech_config::config_bytes(ech_config::ConfigView::V18(contents)) + rest,
            suites,
        ) == Ok::<(ech_config::ContentsView, Seq<H>), Seq<char>>(
            (contents, fitting(suites, contents)),
        ),
        fitting(suites, contents).contains(suites[i]),
{
    ech_config::config_round_trip(ech_config::ConfigView::V18(contents), rest);
    let pred = |s: H| suite_fits(s.implements(), contents);
    suites.lemma_filter_contains(pred, i);
}

/// The config that a new key has can be used with the suite that it was made for.
pub proof fn new_config_fits_its_suite(
    suite: HpkeSuite,
    config_id: u8,
    public_name: Seq<u8>,
    maximum_name_length: u8,
    public_key: Seq<u8>,
)
    ensures
        new_config(suite, config_id, public_name, maximum_name_length, public_key)
            matches ech_config::ConfigView::V18(contents) && suite_fits(suite, contents),
{
    assert(seq![suite.sym][0] == suite.sym);
}

/// Generate an ECH server key and the corresponding serialized ECHConfigList.
///
/// The returned `EchServerKey` should be handed to the proxy. The returned
/// `Vec<u8>` is an ECHConfigList that should be published in DNS (base64-encoded
/// in the HTTPS record's `ech` parameter).
///
/// The key pair is one that `suite` generated, and an error is one that `suite`
/// gave.
pub fn generate_ech_config<H: Hpke>(
    suite: H,
    config_id: u8,
    public_name: PublicName,
    maximum_name_length: u8,
) -> (r: Result<(EchServerKey<H>, Vec<u8>), Error>)
    ensures
        match r {
            Ok((key, list)) => {
                &&& exists|public_key: Seq<u8>|
                    key.config@ == #[trigger] new_config(
                        suite.implements(),
                        config_id,
                        public_name@,
                        maximum_name_length,
                        public_key,
                    ) && suite.may_generate(Ok((public_key, key.private_key@)))
                &&& key.hpke_suites@ == seq![suite]
                &&& key.is_retry_config
                &&& list@ == ech_config::config_list_bytes(seq![key.config@])
            },
            Err(e) => suite.may_generate(Err(e@)),
        },
{
    let (public_key, private_key) = suite.generate_key_pair()?;
    Ok(
        ech_config_of_key_pair(
            suite,
            config_id,
            public_name,
            maximum_name_length,
            public_key,
            private_key,
        ),
    )
}

/// The ECH server key and the serialized ECHConfigList for a key pair.
pub fn ech_config_of_key_pair<H: Hpke>(
    suite: H,
    config_id: u8,
    public_name: PublicName,
    maximum_name_length: u8,
    public_key: HpkePublicKey,
    private_key: HpkePrivateKey,
) -> (r: (EchServerKey<H>, Vec<u8>))
    ensures
        r.0.config@ == new_config(
            suite.implements(),
            config_id,
            public_name@,
            maximum_name_length,
            public_key.0@,
        ),
        r.0.private_key == private_key,
        r.0.hpke_suites@ == seq![suite],
        r.0.is_retry_config,
        r.1@ == ech_config::config_list_bytes(seq![r.0.config@]),
{
    let suite_info = suite.suite();
    let symmetric_cipher_suites = vec![suite_info.sym];
    assert(symmetric_cipher_suites@ =~= seq![suite_info.sym]);
    let contents = EchConfigContents {
        key_config: HpkeKeyConfig {
            config_id,
            kem_id: suite_info.kem,
            public_key: public_key.0,
            symmetric_cipher_suites,
        },
        maximum_name_length,
        public_name,
        extensions: Vec::new(),
    };
    assert(contents@.extensions =~= Seq::empty());
    let config = EchConfigPayload::V18(contents);
    let list = vec![config.clone()];
    let mut config_list_bytes: Vec<u8> = Vec::new();
    ech_config::put_config_list(&mut config_list_bytes, &list);
    assert(ech_config::config_views(list@) =~= seq![config@]);
    assert(config_list_bytes@ =~= ech_config::config_list_bytes(seq![config@]));
    (EchServerKey::new(config, private_key, suite), config_list_bytes)
}

/// The configs of the keys that are marked as retry configs, in order.
pub open spec fn retry_configs_of<H>(keys: Seq<EchServerKey<H>>) -> Seq<ech_config::ConfigView>
    decreases keys.len(),
{
    if keys.len() == 0 {
        Seq::empty()
    } else if keys.last().is_retry_config {
        retry_configs_of(keys.drop_last()).push(keys.last().config@)
    } else {
        retry_configs_of(keys.drop_last())
    }
}

/// Collect retry_configs from all keys marked as retry configs.
pub fn collect_retry_configs<H>(ech_keys: &[EchServerKey<H>]) -> (configs: Vec<EchConfigPayload>)
    ensures
        ech_config::config_views(configs@) == retry_configs_of(ech_keys@),
{
    let mut configs: Vec<EchConfigPayload> = Vec::new();
    let mut i: usize = 0;
    assert(ech_config::config_views(configs@) =~= retry_configs_of(ech_keys@.take(0)));
    while i < ech_keys.len()
        invariant
            0 <= i <= ech_keys@.len(),
            ech_config::config_views(configs@) == retry_configs_of(ech_keys@.take(i as int)),
        decreases ech_keys@.len() - i,
    {
        let ghost done = configs@;
        if ech_keys[i].is_retry_config {
            configs.push(ech_keys[i].config.clone());
            assert(ech_config::config_views(configs@) =~= ech_config::config_views(done).push(
                ech_keys@[i as int].config@,
            ));
        }
        assert(ech_keys@.take(i + 1).drop_last() =~= ech_keys@.take(i as int));
        i = i + 1;
    }
    assert(ech_keys@.take(i as int) =~= ech_keys@);
    configs
}

/// How the HPKE info parameter is laid out.
pub proof fn info_is_laid_out(config: ech_config::ConfigView)
    ensures
        info_of(config) == seq![
            0x74u8,
            0x6cu8,
            0x73u8,
            0x20u8,
            0x65u8,
            0x63u8,
            0x68u8,
            0x00u8,
        ] + ech_config::config_bytes(config),
{
    assert(info_of(config) =~= seq![
        0x74u8,
        0x6cu8,
        0x73u8,
        0x20u8,
        0x65u8,
        0x63u8,
        0x68u8,
        0x00u8,
    ] + ech_config::config_bytes(config));
}

/// Which implementations are retained: exactly those whose KEM is the config's and
/// whose cipher suite is one of the config's, in the order in which they were
/// given.
pub proof fn every_matching_suite_is_retained<H: Hpke>(
    suites: Seq<H>,
    contents: ech_config::ContentsView,
    s: H,
)
    ensures
        fitting(suites, contents) == suites.filter(
            |x: H|
                x.implements().kem == contents.kem_id && exists|i: int|
                    0 <= i < contents.symmetric_cipher_suites.len()
                        && #[trigger] contents.symmetric_cipher_suites[i] == x.implements().sym,
        ),
        suite_fits(s.implements(), contents) <==> s.implements().kem == contents.kem_id && exists|
            i: int,
        |
            0 <= i < contents.symmetric_cipher_suites.len()
                && #[trigger] contents.symmetric_cipher_suites[i] == s.implements().sym,
{
    let mine = |x: H| suite_fits(x.implements(), contents);
    let other = |x: H|
        x.implements().kem == contents.kem_id && exists|i: int|
            0 <= i < contents.symmetric_cipher_suites.len()
                && #[trigger] contents.symmetric_cipher_suites[i] == x.implements().sym;
    assert forall|x: H| #[trigger] mine(x) == other(x) by {
        lemma_suite_fits(x.implements(), contents);
    }
    assert(mine =~= other);
    lemma_suite_fits(s.implements(), contents);
}

proof fn lemma_suite_fits(suite: HpkeSuite, contents: ech_config::ContentsView)
    ensures
        suite_fits(suite, contents) <==> suite.kem == contents.kem_id && exists|i: int|
            0 <= i < contents.symmetric_cipher_suites.len()
                && #[trigger] contents.symmetric_cipher_suites[i] == suite.sym,
{
    let list = contents.symmetric_cipher_suites;
    if suite_fits(suite, contents) {
        let i = choose|i: int| 0 <= i < list.len() && list[i] == suite.sym;
        assert(list[i] == suite.sym);
    }
}

/// When no key is loaded: if the bytes are no config, if it is of another version,
/// and if no implementation matches it.
pub proof fn loading_fails_without_a_usable_config<H: Hpke>(bytes: Seq<u8>, suites: Seq<H>)
    ensures
        ech_config::take_config(bytes) is None ==> loaded(bytes, suites) == Err::<
            (ech_config::ContentsView, Seq<H>),
            Seq<char>,
        >("invalid ECH config"@),
        ech_config::take_config(bytes) matches Some((ech_config::ConfigView::Unknown { .. }, rest))
            ==> loaded(bytes, suites) == Err::<(ech_config::ContentsView, Seq<H>), Seq<char>>(
            "unsupported ECH config version"@,
        ),
        ech_config::take_config(bytes) matches Some((ech_config::ConfigView::V18(contents), rest))
            ==> (if fitting(suites, contents).len() == 0 {
            loaded(bytes, suites) == Err::<(ech_config::ContentsView, Seq<H>), Seq<char>>(
                "no matching HPKE suite for ECH config"@,
            )
        } else {
            loaded(bytes, suites) == Ok::<(ech_config::ContentsView, Seq<H>), Seq<char>>(
                (contents, fitting(suites, contents)),
            )
        }),
{
}

/// The config of a new key holds what it was made of.
pub proof fn new_config_holds_its_parts(
    suite: HpkeSuite,
    config_id: u8,
    public_name: Seq<u8>,
    maximum_name_length: u8,
    public_key: Seq<u8>,
)
    ensures
        new_config(suite, config_id, public_name, maximum_name_length, public_key)
            matches ech_config::ConfigView::V18(c) && c.config_id == config_id && c.kem_id
            == suite.kem && c.public_key == public_key && c.symmetric_cipher_suites == seq![
            suite.sym,
        ] && c.maximum_name_length == maximum_name_length && c.public_name == public_name
            && c.extensions.len() == 0,
{
}

/// The retry configs are the configs of the marked keys, in order.
pub proof fn retry_configs_are_those_marked<H>(keys: Seq<EchServerKey<H>>)
    ensures
        retry_configs_of(keys) == keys.filter(|k: EchServerKey<H>| k.is_retry_config).map_values(
            |k: EchServerKey<H>| k.config@,
        ),
    decreases keys.len(),
{
    reveal(Seq::filter);
    let marked = |k: EchServerKey<H>| k.is_retry_config;
    let config = |k: EchServerKey<H>| k.config@;
    if keys.len() == 0 {
        assert(keys.filter(marked).map_values(config) =~= Seq::empty());
    } else {
        retry_configs_are_those_marked(keys.drop_last());
        let front = keys.drop_last().filter(marked);
        assert(front.push(keys.last()).map_values(config) =~= front.map_values(config).push(
            keys.last().config@,
        ));
    }
}

} // verus!
