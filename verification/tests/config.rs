use sito::config::{Config, ConfigError, ConfigFile, Strategy, TierFile, UpstreamFile};

const SAMPLE: &str = r#"
listen = "127.0.0.1:5001"

[[tier]]
strategy = "sequential"

  [[tier.upstream]]
  url = "http://box.lan:5000"
  public-keys = ["znix.zebradil.dev:AAAA"]

  [[tier.upstream]]
  url = "https://znix.zebradil.dev"

[[tier]]
  [[tier.upstream]]
  url = "https://cache.nixos.org"
  public-keys = ["cache.nixos.org-1:6NCHdD59X431o0gWypbMrAURkbJ16ZPMQFGspcDShjY="]
"#;

fn text(v: &toml::Value) -> Result<String, String> {
    v.as_str().map(str::to_string).ok_or("expected a string".to_string())
}

fn number(v: &toml::Value) -> Result<u64, String> {
    let n = v.as_integer().ok_or("expected an integer")?;
    u64::try_from(n).map_err(|e| e.to_string())
}

fn list(v: &toml::Value) -> Result<&Vec<toml::Value>, String> {
    v.as_array().ok_or("expected an array".to_string())
}

fn table(v: &toml::Value) -> Result<&toml::Table, String> {
    v.as_table().ok_or("expected a table".to_string())
}

fn upstream(v: &toml::Value) -> Result<UpstreamFile, String> {
    let mut url = None;
    let mut public_keys = None;
    for (key, v) in table(v)? {
        match key.as_str() {
            "url" => url = Some(text(v)?),
            "public-keys" => {
                public_keys = Some(list(v)?.iter().map(text).collect::<Result<Vec<_>, _>>()?)
            }
            _ => return Err(format!("unknown field `{key}`")),
        }
    }
    let url = url.ok_or("missing field `url`")?;
    Ok(UpstreamFile { url, public_keys })
}

fn tier(v: &toml::Value) -> Result<TierFile, String> {
    let mut strategy = None;
    let mut upstreams = None;
    for (key, v) in table(v)? {
        match key.as_str() {
            "strategy" => {
                strategy = Some(match text(v)?.as_str() {
                    "sequential" => Strategy::Sequential,
                    "race" => Strategy::Race,
                    other => return Err(format!("unknown variant `{other}`")),
                })
            }
            "upstream" => {
                upstreams = Some(list(v)?.iter().map(upstream).collect::<Result<Vec<_>, _>>()?)
            }
            _ => return Err(format!("unknown field `{key}`")),
        }
    }
    Ok(TierFile { strategy, upstreams })
}

fn decode(raw: &str) -> Result<ConfigFile, String> {
    let doc: toml::Table = toml::from_str(raw).map_err(|e| e.to_string())?;
    let mut file = ConfigFile {
        listen: None,
        probe_interval_secs: None,
        probe_timeout_secs: None,
        max_inflight: None,
        tiers: None,
    };
    for (key, v) in &doc {
        match key.as_str() {
            "listen" => file.listen = Some(text(v)?),
            "probe-interval-secs" => file.probe_interval_secs = Some(number(v)?),
            "probe-timeout-secs" => file.probe_timeout_secs = Some(number(v)?),
            "max-inflight" => file.max_inflight = Some(number(v)? as usize),
            "tier" => file.tiers = Some(list(v)?.iter().map(tier).collect::<Result<Vec<_>, _>>()?),
            _ => return Err(format!("unknown field `{key}`")),
        }
    }
    Ok(file)
}

fn parse(raw: &str) -> Result<Config, ConfigError> {
    Config::parse(decode(raw))
}

#[test]
fn parses_sample_with_defaults() {
    let cfg = parse(SAMPLE).unwrap();
    assert_eq!(cfg.listen, "127.0.0.1:5001");
    assert_eq!(cfg.probe_interval_secs, 15);
    assert_eq!(cfg.tiers.len(), 2);
    assert_eq!(cfg.tiers[0].upstreams.len(), 2);
    assert_eq!(cfg.tiers[1].strategy, Strategy::Sequential);
    assert_eq!(cfg.tiers[0].upstreams[0].public_keys.len(), 1);
    assert!(cfg.tiers[0].upstreams[1].public_keys.is_empty());
}

#[test]
fn race_parses_but_is_rejected() {
    let raw = r#"
[[tier]]
strategy = "race"
  [[tier.upstream]]
  url = "http://a:1"
"#;
    let err = parse(raw).unwrap_err().message();
    assert!(err.contains("race"), "{err}");
    assert_eq!(err, "tier 0: strategy 'race' is not implemented yet");
}

#[test]
fn empty_config_is_rejected() {
    assert!(parse("").is_err());
    assert!(matches!(parse(""), Err(ConfigError::NoUpstreams)));
    assert_eq!(parse("").unwrap_err().message(), "no upstreams configured");
}

#[test]
fn non_http_url_is_rejected() {
    let raw = r#"
[[tier]]
  [[tier.upstream]]
  url = "s3://bucket"
"#;
    assert!(parse(raw).is_err());
    assert_eq!(
        parse(raw).unwrap_err().message(),
        "tier 0: upstream url must be http(s): s3://bucket"
    );
}

#[test]
fn every_left_out_key_takes_its_default() {
    let cfg = parse("[[tier]]\n[[tier.upstream]]\nurl = \"http://a\"\n").unwrap();
    assert_eq!(cfg.listen, "127.0.0.1:5001");
    assert_eq!(cfg.probe_interval_secs, 15);
    assert_eq!(cfg.probe_timeout_secs, 3);
    assert_eq!(cfg.max_inflight, 64);
}

#[test]
fn every_given_key_is_kept() {
    let raw = r#"
listen = "0.0.0.0:80"
probe-interval-secs = 7
probe-timeout-secs = 2
max-inflight = 0
[[tier]]
[[tier]]
  [[tier.upstream]]
  url = "https://b/"
  public-keys = ["k1", "k2"]
"#;
    let cfg = parse(raw).unwrap();
    assert_eq!(cfg.listen, "0.0.0.0:80");
    assert_eq!(cfg.probe_interval_secs, 7);
    assert_eq!(cfg.probe_timeout_secs, 2);
    assert_eq!(cfg.max_inflight, 0);
    assert!(cfg.tiers[0].upstreams.is_empty());
    assert_eq!(cfg.tiers[1].upstreams[0].url, "https://b/");
    assert_eq!(cfg.tiers[1].upstreams[0].public_keys, vec!["k1", "k2"]);
}

#[test]
fn what_the_decoder_said_is_passed_on() {
    let err = parse("lisen = \"x\"").unwrap_err();
    assert!(matches!(&err, ConfigError::Malformed(_)));
    assert_eq!(err.message(), "unknown field `lisen`");
    assert!(parse("listen = 3").is_err());
}

#[test]
fn the_first_fault_is_named() {
    let url = |u: &str| UpstreamFile { url: u.to_string(), public_keys: None };
    let file = |tiers: Vec<TierFile>| {
        Ok(ConfigFile {
            listen: None,
            probe_interval_secs: None,
            probe_timeout_secs: None,
            max_inflight: None,
            tiers: Some(tiers),
        })
    };
    let tier = |strategy: Strategy, urls: Vec<&str>| TierFile {
        strategy: Some(strategy),
        upstreams: Some(urls.into_iter().map(url).collect()),
    };
    // An empty tier that asks for race loses to having no upstream at all.
    let r = Config::parse(file(vec![tier(Strategy::Race, vec![])]));
    assert!(matches!(r, Err(ConfigError::NoUpstreams)));
    // Within a tier the strategy is looked at before the URLs.
    let r = Config::parse(file(vec![
        tier(Strategy::Sequential, vec!["http://a"]),
        tier(Strategy::Race, vec!["ftp://b"]),
    ]));
    assert!(matches!(r, Err(ConfigError::RaceNotImplemented { tier: 1 })));
    // Tiers are looked at in order.
    let r = Config::parse(file(vec![
        tier(Strategy::Sequential, vec!["http://a", "HTTP://b", "ftp://c"]),
        tier(Strategy::Race, vec![]),
    ]));
    match r {
        Err(ConfigError::NotHttp { tier, url }) => {
            assert_eq!(tier, 0);
            assert_eq!(url, "HTTP://b");
        }
        other => panic!("{other:?}"),
    }
    // Tier numbers are written in decimal.
    let mut tiers: Vec<TierFile> = (0..120).map(|_| tier(Strategy::Sequential, vec!["http://a"])).collect();
    tiers.push(tier(Strategy::Race, vec![]));
    let err = Config::parse(file(tiers)).unwrap_err();
    assert_eq!(err.message(), "tier 120: strategy 'race' is not implemented yet");
}

#[test]
fn strategy_defaults_to_sequential() {
    assert_eq!(Strategy::default(), Strategy::Sequential);
}
