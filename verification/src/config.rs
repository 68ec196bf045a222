//! Configuration: listen address plus ordered tiers of upstreams.
use crate::text::{
    decimal, decimal_text, joined, law_decimal_text_spells_the_number, place_value, starts_with,
};
use vstd::prelude::*;
use vstd::string::*;

verus! {

/// How a tier queries its upstreams for one request. `Race` is part of the
/// schema so that adding it later breaks no config, and is rejected by
/// [`Config::parse`].
#[derive(Debug, Clone, Copy, PartialEq, Eq, Structural)]
pub enum Strategy {
    /// Try upstreams one at a time in current rank order; the first hit wins,
    /// a miss moves on to the next.
    Sequential,
    /// Parallel fan-out, first positive answer wins. Unimplemented.
    Race,
}

impl Default for Strategy {
    fn default() -> (s: Strategy)
        ensures
            s == Strategy::Sequential,
    {
        Strategy::Sequential
    }
}

/// A config file as decoded: every key that a file may leave out is optional.
#[derive(Debug)]
pub struct ConfigFile {
    pub listen: Option<String>,
    pub probe_interval_secs: Option<u64>,
    pub probe_timeout_secs: Option<u64>,
    pub max_inflight: Option<usize>,
    pub tiers: Option<Vec<TierFile>>,
}

/// A tier as decoded.
#[derive(Debug)]
pub struct TierFile {
    pub strategy: Option<Strategy>,
    pub upstreams: Option<Vec<UpstreamFile>>,
}

/// An upstream as decoded.
#[derive(Debug)]
pub struct UpstreamFile {
    pub url: String,
    pub public_keys: Option<Vec<String>>,
}

/// A complete configuration.
#[derive(Debug)]
pub struct Config {
    /// `host:port` to bind. Localhost by default, because there is no
    /// authentication and clients are granted whatever the upstreams grant.
    pub listen: String,
    /// Seconds between probe passes; bounds how long a stale health verdict
    /// can survive a network change.
    pub probe_interval_secs: u64,
    /// Per-probe deadline in seconds, connect through response.
    pub probe_timeout_secs: u64,
    /// Hard cap on concurrently served requests.
    pub max_inflight: usize,
    /// Tiers in the order they are tried.
    pub tiers: Vec<Tier>,
}

/// An ordered group of upstreams sharing one selection strategy.
#[derive(Debug)]
pub struct Tier {
    pub strategy: Strategy,
    /// Upstreams in config order, which is also the tie-break order used
    /// before any quality signal exists.
    pub upstreams: Vec<Upstream>,
}

#[derive(Debug)]
pub struct Upstream {
    /// Base URL of the binary cache, `http://` or `https://`. A trailing
    /// slash is tolerated; request paths are appended to it verbatim.
    pub url: String,
    /// Signing keys the client must trust for this upstream. Never used to
    /// verify anything here.
    pub public_keys: Vec<String>,
}

/// Why a configuration is refused.
#[derive(Debug)]
pub enum ConfigError {
    /// The file does not decode; what the decoder said.
    Malformed(String),
    /// No tier has any upstream.
    NoUpstreams,
    /// A tier asks for [`Strategy::Race`].
    RaceNotImplemented { tier: usize },
    /// An upstream URL that is neither `http://` nor `https://`.
    NotHttp { tier: usize, url: String },
}

pub fn default_listen() -> (s: String)
    ensures
        s@ == "127.0.0.1:5001"@,
{
    "127.0.0.1:5001".to_owned()
}

pub fn default_probe_interval() -> (n: u64)
    ensures
        n == 15,
{
    15
}

pub fn default_probe_timeout() -> (n: u64)
    ensures
        n == 3,
{
    3
}

pub fn default_max_inflight() -> (n: usize)
    ensures
        n == 64,
{
    64
}

/// An upstream is its file entry, without keys where the file has none.
pub open spec fn upstream_matches(u: Upstream, file: UpstreamFile) -> bool {
    &&& u.url@ == file.url@
    &&& u.public_keys@ == (match file.public_keys {
        Some(keys) => keys@,
        None => Seq::empty(),
    })
}

pub open spec fn upstream_files(tier: TierFile) -> Seq<UpstreamFile> {
    match tier.upstreams {
        Some(us) => us@,
        None => Seq::empty(),
    }
}

/// A tier is its file entry, sequential and empty where the file says nothing.
pub open spec fn tier_matches(tier: Tier, file: TierFile) -> bool {
    &&& tier.strategy == (match file.strategy {
        Some(strategy) => strategy,
        None => Strategy::Sequential,
    })
    &&& tier.upstreams@.len() == upstream_files(file).len()
    &&& forall|j: int|
        0 <= j < tier.upstreams@.len() ==> upstream_matches(
            #[trigger] tier.upstreams@[j],
            upstream_files(file)[j],
        )
}

pub open spec fn tier_files(file: ConfigFile) -> Seq<TierFile> {
    match file.tiers {
        Some(tiers) => tiers@,
        None => Seq::empty(),
    }
}

/// A configuration is what its file says, with a default for every key that
/// the file leaves out.
pub open spec fn config_matches(cfg: Config, file: ConfigFile) -> bool {
    &&& cfg.listen@ == (match file.listen {
        Some(listen) => listen@,
        None => "127.0.0.1:5001"@,
    })
    &&& cfg.probe_interval_secs == (match file.probe_interval_secs {
        Some(n) => n,
        None => 15,
    })
    &&& cfg.probe_timeout_secs == (match file.probe_timeout_secs {
        Some(n) => n,
        None => 3,
    })
    &&& cfg.max_inflight == (match file.max_inflight {
        Some(n) => n,
        None => 64,
    })
    &&& cfg.tiers@.len() == tier_files(file).len()
    &&& forall|i: int|
        0 <= i < cfg.tiers@.len() ==> tier_matches(#[trigger] cfg.tiers@[i], tier_files(file)[i])
}

/// Whether a URL is one that can be fetched from.
pub open spec fn is_http(url: Seq<char>) -> bool {
    "http://"@.is_prefix_of(url) || "https://"@.is_prefix_of(url)
}

/// Whether no tier has any upstream.
pub open spec fn nothing_configured(tiers: Seq<TierFile>) -> bool {
    forall|i: int| 0 <= i < tiers.len() ==> upstream_files(#[trigger] tiers[i]).len() == 0
}

pub open spec fn is_race(tier: TierFile) -> bool {
    tier.strategy == Some(Strategy::Race)
}

/// Whether a tier keeps both rules: a strategy that exists, and URLs that can
/// be fetched from.
pub open spec fn tier_acceptable(tier: TierFile) -> bool {
    &&& !is_race(tier)
    &&& forall|j: int|
        0 <= j < upstream_files(tier).len() ==> is_http(
            (#[trigger] upstream_files(tier)[j]).url@,
        )
}

/// Whether tier `i` is the first that is not acceptable.
pub open spec fn first_bad_tier(tiers: Seq<TierFile>, i: int) -> bool {
    &&& 0 <= i < tiers.len()
    &&& forall|k: int| 0 <= k < i ==> tier_acceptable(#[trigger] tiers[k])
    &&& !tier_acceptable(tiers[i])
}

/// Whether the upstream at `j` is the first of a tier whose URL is not http.
pub open spec fn first_bad_url(tier: TierFile, j: int) -> bool {
    &&& 0 <= j < upstream_files(tier).len()
    &&& forall|k: int| 0 <= k < j ==> is_http((#[trigger] upstream_files(tier)[k]).url@)
    &&& !is_http(upstream_files(tier)[j].url@)
}

/// Whether a decoded file is accepted.
pub open spec fn acceptable(file: ConfigFile) -> bool {
    &&& !nothing_configured(tier_files(file))
    &&& forall|i: int|
        0 <= i < tier_files(file).len() ==> tier_acceptable(#[trigger] tier_files(file)[i])
}

/// The refusal that a bad tier at position `i` brings: its strategy first, then
/// the first of its URLs that is not http.
pub open spec fn refused_for(r: Result<Config, ConfigError>, tier: TierFile, i: int) -> bool {
    if is_race(tier) {
        r matches Err(ConfigError::RaceNotImplemented { tier: t }) && t == i
    } else {
        r matches Err(ConfigError::NotHttp { tier: t, url }) && t == i && exists|j: int|
            first_bad_url(tier, j) && url@ == (#[trigger] upstream_files(tier)[j]).url@
    }
}

fn keys_of(keys: &Option<Vec<String>>) -> (r: Vec<String>)
    ensures
        r@ == (match *keys {
            Some(keys) => keys@,
            None => Seq::empty(),
        }),
{
    match keys {
        Some(keys) => {
            let r = keys.clone();
            assert(r@ == keys@);
            r
        },
        None => Vec::new(),
    }
}

fn upstreams_of(file: &TierFile) -> (r: Vec<Upstream>)
    ensures
        r@.len() == upstream_files(*file).len(),
        forall|j: int|
            0 <= j < r@.len() ==> upstream_matches(#[trigger] r@[j], upstream_files(*file)[j]),
{
    let mut r: Vec<Upstream> = Vec::new();
    match &file.upstreams {
        Some(us) => {
            let mut j: usize = 0;
            while j < us.len()
                invariant
                    j <= us@.len(),
                    us@ == upstream_files(*file),
                    r@.len() == j,
                    forall|k: int|
                        0 <= k < j ==> upstream_matches(
                            #[trigger] r@[k],
                            upstream_files(*file)[k],
                        ),
                decreases us@.len() - j,
            {
                r.push(
                    Upstream {
                        url: us[j].url.clone(),
                        public_keys: keys_of(&us[j].public_keys),
                    },
                );
                j = j + 1;
            }
        },
        None => {},
    }
    r
}

fn tiers_of(file: &ConfigFile) -> (r: Vec<Tier>)
    ensures
        r@.len() == tier_files(*file).len(),
        forall|i: int| 0 <= i < r@.len() ==> tier_matches(#[trigger] r@[i], tier_files(*file)[i]),
{
    let mut r: Vec<Tier> = Vec::new();
    match &file.tiers {
        Some(tiers) => {
            let mut i: usize = 0;
            while i < tiers.len()
                invariant
                    i <= tiers@.len(),
                    tiers@ == tier_files(*file),
                    r@.len() == i,
                    forall|k: int|
                        0 <= k < i ==> tier_matches(#[trigger] r@[k], tier_files(*file)[k]),
                decreases tiers@.len() - i,
            {
                let strategy = match tiers[i].strategy {
                    Some(strategy) => strategy,
                    None => Strategy::default(),
                };
                r.push(Tier { strategy, upstreams: upstreams_of(&tiers[i]) });
                i = i + 1;
            }
        },
        None => {},
    }
    r
}

/// Whether no tier has any upstream.
fn all_empty(tiers: &Vec<Tier>) -> (r: bool)
    ensures
        r == (forall|i: int| 0 <= i < tiers@.len() ==> (#[trigger] tiers@[i]).upstreams@.len()
            == 0),
{
    let mut i: usize = 0;
    while i < tiers.len()
        invariant
            i <= tiers@.len(),
            forall|k: int| 0 <= k < i ==> (#[trigger] tiers@[k]).upstreams@.len() == 0,
        decreases tiers@.len() - i,
    {
        if tiers[i].upstreams.len() > 0 {
            return false;
        }
        i = i + 1;
    }
    true
}

impl Config {
    /// Completes a decoded config file and rejects one that would leave the
    /// proxy with nothing useful to do or with a promise it cannot keep: no
    /// upstreams anywhere, a tier asking for [`Strategy::Race`], or an upstream
    /// URL that is not `http://` or `https://`. A file that did not decode is
    /// refused with what the decoder said.
    pub fn parse(decoded: Result<ConfigFile, String>) -> (r: Result<Config, ConfigError>)
        ensures
            match decoded {
                Err(said) => r matches Err(ConfigError::Malformed(e)) && e == said,
                Ok(file) => {
                    let tiers = tier_files(file);
                    if nothing_configured(tiers) {
                        r matches Err(ConfigError::NoUpstreams)
                    } else if acceptable(file) {
                        r matches Ok(cfg) && config_matches(cfg, file)
                    } else {
                        exists|i: int| #[trigger]
                            first_bad_tier(tiers, i) && refused_for(r, tiers[i], i)
                    }
                },
            },
    {
        let file = match decoded {
            Err(said) => {
                return Err(ConfigError::Malformed(said));
            },
            Ok(file) => file,
        };
        let ghost files = tier_files(file);
        let tiers = tiers_of(&file);
        assert forall|k: int| 0 <= k < files.len() implies (#[trigger] tiers@[k]).upstreams@.len()
            == upstream_files(#[trigger] files[k]).len() by {
            assert(tier_matches(tiers@[k], files[k]));
        }
        if all_empty(&tiers) {
            assert forall|k: int| 0 <= k < files.len() implies upstream_files(
                #[trigger] files[k],
            ).len() == 0 by {
                assert(tiers@[k].upstreams@.len() == 0);
            }
            return Err(ConfigError::NoUpstreams);
        }
        proof {
            let k = choose|k: int|
                0 <= k < tiers@.len() && (#[trigger] tiers@[k]).upstreams@.len() != 0;
            assert(upstream_files(files[k]).len() != 0);
        }
        let mut i: usize = 0;
        while i < tiers.len()
            invariant
                i <= tiers@.len() == files.len(),
                decoded matches Ok(f) && f == file,
                files == tier_files(file),
                !nothing_configured(files),
                forall|k: int|
                    0 <= k < tiers@.len() ==> tier_matches(#[trigger] tiers@[k], files[k]),
                forall|k: int| 0 <= k < i ==> tier_acceptable(#[trigger] files[k]),
            decreases tiers@.len() - i,
        {
            assert(tier_matches(tiers@[i as int], files[i as int]));
            if tiers[i].strategy == Strategy::Race {
                assert(!tier_acceptable(files[i as int]));
                assert(first_bad_tier(files, i as int));
                return Err(ConfigError::RaceNotImplemented { tier: i });
            }
            let us = &tiers[i].upstreams;
            let mut j: usize = 0;
            while j < us.len()
                invariant
                    i < tiers@.len() == files.len(),
                    us == &tiers@[i as int].upstreams,
                    j <= us@.len(),
                    decoded matches Ok(f) && f == file,
                    files == tier_files(file),
                    !nothing_configured(files),
                    tier_matches(tiers@[i as int], files[i as int]),
                    !is_race(files[i as int]),
                    forall|k: int| 0 <= k < i ==> tier_acceptable(#[trigger] files[k]),
                    forall|k: int|
                        0 <= k < j ==> is_http(
                            (#[trigger] upstream_files(files[i as int])[k]).url@,
                        ),
                decreases us@.len() - j,
            {
                let u = &us[j];
                assert(upstream_matches(us@[j as int], upstream_files(files[i as int])[j as int]));
                if !starts_with(&u.url, "http://") && !starts_with(&u.url, "https://") {
                    assert(first_bad_url(files[i as int], j as int));
                    assert(!tier_acceptable(files[i as int]));
                    assert(first_bad_tier(files, i as int));
                    return Err(ConfigError::NotHttp { tier: i, url: u.url.clone() });
                }
                j = j + 1;
            }
            assert(tier_acceptable(files[i as int]));
            i = i + 1;
        }
        Ok(
            Config {
                listen: match file.listen {
                    Some(listen) => listen,
                    None => default_listen(),
                },
                probe_interval_secs: match file.probe_interval_secs {
                    Some(n) => n,
                    None => default_probe_interval(),
                },
                probe_timeout_secs: match file.probe_timeout_secs {
                    Some(n) => n,
                    None => default_probe_timeout(),
                },
                max_inflight: match file.max_inflight {
                    Some(n) => n,
                    None => default_max_inflight(),
                },
                tiers,
            },
        )
    }
}

impl ConfigError {
    /// What a refusal says.
    pub open spec fn text(self) -> Seq<char> {
        match self {
            ConfigError::Malformed(said) => said@,
            ConfigError::NoUpstreams => "no upstreams configured"@,
            ConfigError::RaceNotImplemented { tier } => "tier "@ + decimal_text(tier as nat)
                + ": strategy 'race' is not implemented yet"@,
            ConfigError::NotHttp { tier, url } => "tier "@ + decimal_text(tier as nat)
                + ": upstream url must be http(s): "@ + url@,
        }
    }

    /// The refusal in words, naming the tier.
    pub fn message(&self) -> (s: String)
        ensures
            s@ == self.text(),
    {
        match self {
            ConfigError::Malformed(said) => said.clone(),
            ConfigError::NoUpstreams => "no upstreams configured".to_owned(),
            ConfigError::RaceNotImplemented { tier } => {
                let mut s = joined("tier ", &decimal(*tier));
                s.append(": strategy 'race' is not implemented yet");
                s
            },
            ConfigError::NotHttp { tier, url } => {
                let mut s = joined("tier ", &decimal(*tier));
                s.append(": upstream url must be http(s): ");
                s.append(url);
                s
            },
        }
    }
}

/// Whether a URL is `http://` or `https://` and something more.
pub open spec fn http_url(url: Seq<char>) -> bool {
    ||| exists|rest: Seq<char>| url == #[trigger] ("http://"@ + rest)
    ||| exists|rest: Seq<char>| url == #[trigger] ("https://"@ + rest)
}

proof fn lemma_http_url(url: Seq<char>)
    ensures
        http_url(url) <==> is_http(url),
{
    let plain = "http://"@;
    let secure = "https://"@;
    if plain.is_prefix_of(url) {
        assert(url == plain + url.skip(plain.len() as int));
    }
    if secure.is_prefix_of(url) {
        assert(url == secure + url.skip(secure.len() as int));
    }
    if exists|rest: Seq<char>| url == #[trigger] (plain + rest) {
        assert(url.subrange(0, plain.len() as int) == plain);
    }
    if exists|rest: Seq<char>| url == #[trigger] (secure + rest) {
        assert(url.subrange(0, secure.len() as int) == secure);
    }
}

/// Whether nothing stands against a tier: it does not ask for a race, and every
/// URL in it is http or https.
pub open spec fn faultless(tier: TierFile) -> bool {
    &&& tier.strategy != Some(Strategy::Race)
    &&& tier.upstreams matches Some(us) ==> forall|j: int|
        0 <= j < us@.len() ==> http_url((#[trigger] us@[j]).url@)
}

/// Whether a file configures any upstream at all.
pub open spec fn has_upstream(file: ConfigFile) -> bool {
    file.tiers matches Some(tiers) && exists|t: int|
        0 <= t < tiers@.len() && ((#[trigger] tiers@[t]).upstreams matches Some(us) && us@.len() > 0)
}

proof fn lemma_faultless(tier: TierFile)
    ensures
        faultless(tier) <==> tier_acceptable(tier),
{
    assert forall|j: int| 0 <= j < upstream_files(tier).len() implies http_url(
        (#[trigger] upstream_files(tier)[j]).url@,
    ) == is_http(upstream_files(tier)[j].url@) by {
        lemma_http_url(upstream_files(tier)[j].url@);
    }
    if tier.upstreams is Some {
        assert(tier.upstreams->0@ == upstream_files(tier));
    }
}

proof fn lemma_has_upstream(file: ConfigFile)
    ensures
        has_upstream(file) <==> !nothing_configured(tier_files(file)),
{
    if has_upstream(file) {
        let tiers = file.tiers->0@;
        let t = choose|t: int|
            0 <= t < tiers.len() && ((#[trigger] tiers[t]).upstreams matches Some(us) && us@.len()
                > 0);
        assert(upstream_files(tier_files(file)[t]).len() > 0);
    }
    if !nothing_configured(tier_files(file)) {
        let t = choose|t: int|
            0 <= t < tier_files(file).len() && upstream_files(#[trigger] tier_files(file)[t]).len()
                != 0;
        assert(file.tiers->0@[t].upstreams->0@.len() > 0);
    }
}

/// A configuration is accepted exactly if its file decoded, has an upstream and
/// no tier at fault.
pub proof fn law_which_files_are_accepted(
    decoded: Result<ConfigFile, String>,
    r: Result<Config, ConfigError>,
)
    requires
        call_ensures(Config::parse, (decoded,), r),
    ensures
        r is Ok <==> (decoded matches Ok(file) && has_upstream(file) && forall|t: int|
            0 <= t < (file.tiers->0)@.len() ==> faultless(#[trigger] (file.tiers->0)@[t])),
{
    if decoded is Ok {
        let file = decoded->Ok_0;
        lemma_has_upstream(file);
        assert forall|t: int| 0 <= t < tier_files(file).len() implies faultless(
            #[trigger] tier_files(file)[t],
        ) == tier_acceptable(tier_files(file)[t]) by {
            lemma_faultless(tier_files(file)[t]);
        }
        if file.tiers is Some {
            assert(tier_files(file) == (file.tiers->0)@);
        }
    }
}

/// An accepted configuration holds what its file says, tier by tier and upstream
/// by upstream, and the documented default for what it leaves out.
pub proof fn law_accepted_config_is_the_file(
    decoded: Result<ConfigFile, String>,
    r: Result<Config, ConfigError>,
)
    requires
        call_ensures(Config::parse, (decoded,), r),
        r is Ok,
    ensures
        decoded is Ok,
        ({
            let file = decoded->Ok_0;
            let cfg = r->Ok_0;
            &&& file.listen is None ==> cfg.listen@ == "127.0.0.1:5001"@
            &&& file.listen matches Some(listen) ==> cfg.listen@ == listen@
            &&& file.probe_interval_secs is None ==> cfg.probe_interval_secs == 15
            &&& file.probe_interval_secs matches Some(n) ==> cfg.probe_interval_secs == n
            &&& file.probe_timeout_secs is None ==> cfg.probe_timeout_secs == 3
            &&& file.probe_timeout_secs matches Some(n) ==> cfg.probe_timeout_secs == n
            &&& file.max_inflight is None ==> cfg.max_inflight == 64
            &&& file.max_inflight matches Some(n) ==> cfg.max_inflight == n
            &&& file.tiers is Some
            &&& cfg.tiers@.len() == (file.tiers->0)@.len()
        }),
        forall|t: int|
            0 <= t < (r->Ok_0).tiers@.len() ==> {
                let tier = (decoded->Ok_0.tiers->0)@[t];
                &&& (#[trigger] (r->Ok_0).tiers@[t]).strategy == Strategy::Sequential
                &&& tier.upstreams is None ==> (r->Ok_0).tiers@[t].upstreams@.len() == 0
                &&& tier.upstreams matches Some(us) ==> (r->Ok_0).tiers@[t].upstreams@.len()
                    == us@.len()
            },
        forall|t: int, j: int|
            #![trigger (r->Ok_0).tiers@[t].upstreams@[j]]
            0 <= t < (r->Ok_0).tiers@.len() && 0 <= j < (r->Ok_0).tiers@[t].upstreams@.len() ==> {
                let entry = ((decoded->Ok_0.tiers->0)@[t].upstreams->0)@[j];
                let u = (r->Ok_0).tiers@[t].upstreams@[j];
                &&& u.url@ == entry.url@
                &&& entry.public_keys is None ==> u.public_keys@.len() == 0
                &&& entry.public_keys matches Some(keys) ==> u.public_keys@ == keys@
            },
{
    law_which_files_are_accepted(decoded, r);
    let file = decoded->Ok_0;
    let cfg = r->Ok_0;
    let files = (file.tiers->0)@;
    assert(tier_files(file) == files);
    assert forall|t: int| 0 <= t < cfg.tiers@.len() implies {
        let tier = files[t];
        &&& (#[trigger] cfg.tiers@[t]).strategy == Strategy::Sequential
        &&& tier.upstreams is None ==> cfg.tiers@[t].upstreams@.len() == 0
        &&& tier.upstreams matches Some(us) ==> cfg.tiers@[t].upstreams@.len() == us@.len()
    } by {
        assert(tier_matches(cfg.tiers@[t], files[t]));
        assert(faultless(files[t]));
    }
    assert forall|t: int, j: int|
        #![trigger cfg.tiers@[t].upstreams@[j]]
        0 <= t < cfg.tiers@.len() && 0 <= j < cfg.tiers@[t].upstreams@.len() implies {
        let entry = (files[t].upstreams->0)@[j];
        let u = cfg.tiers@[t].upstreams@[j];
        &&& u.url@ == entry.url@
        &&& entry.public_keys is None ==> u.public_keys@.len() == 0
        &&& entry.public_keys matches Some(keys) ==> u.public_keys@ == keys@
    } by {
        assert(tier_matches(cfg.tiers@[t], files[t]));
        assert(upstream_matches(cfg.tiers@[t].upstreams@[j], upstream_files(files[t])[j]));
    }
}

/// A refusal names the first fault: a file that did not decode, then having no
/// upstream, then the first tier at fault, for its strategy before the first of
/// its URLs that is not http.
pub proof fn law_refusal_names_the_first_fault(
    decoded: Result<ConfigFile, String>,
    r: Result<Config, ConfigError>,
)
    requires
        call_ensures(Config::parse, (decoded,), r),
    ensures
        decoded matches Err(said) ==> (r matches Err(ConfigError::Malformed(e)) && e == said),
        r matches Err(ConfigError::Malformed(_)) ==> decoded is Err,
        (r matches Err(ConfigError::NoUpstreams)) <==> (decoded matches Ok(file) && !has_upstream(
            file,
        )),
        r matches Err(ConfigError::RaceNotImplemented { tier }) ==> {
            let tiers = (decoded->Ok_0.tiers->0)@;
            &&& tier < tiers.len()
            &&& tiers[tier as int].strategy == Some(Strategy::Race)
            &&& forall|k: int| 0 <= k < tier ==> faultless(#[trigger] tiers[k])
        },
        r matches Err(ConfigError::NotHttp { tier, url }) ==> {
            let tiers = (decoded->Ok_0.tiers->0)@;
            let us = (tiers[tier as int].upstreams->0)@;
            &&& tier < tiers.len()
            &&& tiers[tier as int].strategy != Some(Strategy::Race)
            &&& forall|k: int| 0 <= k < tier ==> faultless(#[trigger] tiers[k])
            &&& exists|j: int|
                0 <= j < us.len() && (#[trigger] us[j]).url@ == url@ && !http_url(url@)
                    && forall|k: int| 0 <= k < j ==> http_url((#[trigger] us[k]).url@)
        },
{
    if decoded is Ok {
        let file = decoded->Ok_0;
        lemma_has_upstream(file);
        if has_upstream(file) && r is Err {
            let tiers = (file.tiers->0)@;
            assert(tier_files(file) == tiers);
            assert forall|t: int| 0 <= t < tiers.len() implies faultless(#[trigger] tiers[t])
                == tier_acceptable(tiers[t]) by {
                lemma_faultless(tiers[t]);
            }
            let i = choose|i: int| #[trigger]
                first_bad_tier(tiers, i) && refused_for(r, tiers[i], i);
            if !is_race(tiers[i]) {
                let us = (tiers[i].upstreams->0)@;
                assert(upstream_files(tiers[i]) == us) by {
                    assert(!faultless(tiers[i]));
                }
                let url = r->Err_0->NotHttp_url@;
                let j = choose|j: int|
                    first_bad_url(tiers[i], j) && url == (#[trigger] upstream_files(
                        tiers[i],
                    )[j]).url@;
                lemma_http_url(us[j].url@);
                assert forall|k: int| 0 <= k < j implies http_url((#[trigger] us[k]).url@) by {
                    assert(is_http(upstream_files(tiers[i])[k].url@));
                    lemma_http_url(us[k].url@);
                }
                assert(us[j].url@ == url);
            }
        }
    }
}

/// What a refusal says: what the decoder said, or what is wrong, with the number
/// of the tier in decimal and the URL as it was written.
pub proof fn law_refusals_in_words(e: &ConfigError, s: String)
    requires
        call_ensures(ConfigError::message, (e,), s),
    ensures
        e matches ConfigError::Malformed(said) ==> s@ == said@,
        e is NoUpstreams ==> s@ == "no upstreams configured"@,
        e matches ConfigError::RaceNotImplemented { tier } ==> exists|number: Seq<char>|
            spells(number, *tier as int) && s@ == "tier "@ + #[trigger] (number
                + ": strategy 'race' is not implemented yet"@),
        e matches ConfigError::NotHttp { tier, url } ==> exists|number: Seq<char>|
            spells(number, *tier as int) && s@ == "tier "@ + #[trigger] (number
                + (": upstream url must be http(s): "@ + url@)),
{
    match e {
        ConfigError::RaceNotImplemented { tier } => {
            let number = decimal_text(*tier as nat);
            law_decimal_text_spells_the_number(*tier as nat);
            assert(s@ == "tier "@ + (number + ": strategy 'race' is not implemented yet"@));
        },
        ConfigError::NotHttp { tier, url } => {
            let number = decimal_text(*tier as nat);
            law_decimal_text_spells_the_number(*tier as nat);
            assert(s@ == "tier "@ + (number + (": upstream url must be http(s): "@ + url@)));
        },
        _ => {},
    }
}

/// Whether `number` is `n` in decimal.
pub open spec fn spells(number: Seq<char>, n: int) -> bool {
    &&& number.len() > 0
    &&& forall|i: int| 0 <= i < number.len() ==> '0' <= #[trigger] number[i] <= '9'
    &&& number.len() > 1 ==> number[0] != '0'
    &&& place_value(number) == n
}

/// A tier asks for no race unless it says so.
pub proof fn law_default_strategy(s: Strategy)
    requires
        call_ensures(<Strategy as Default>::default, (), s),
    ensures
        s == Strategy::Sequential,
{
}

} // verus!
