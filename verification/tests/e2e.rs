//! Whole requests: routing, planning, walking the plan and relaying, with mock
//! upstreams that answer from memory.
use sito::config::{Config, ConfigFile, TierFile, UpstreamFile};
use sito::fetch::{Outcome, Verdict};
use sito::measure::Measure;
use sito::probe::probe_all;
use sito::proxy::{
    finish_narinfo, forward, handle, relay, selection_input, status, App, Body, Dispatch,
    Method, Relay, Reply, UpstreamHead,
};
use sito::select::{DefaultEngine, Plan, RequestKind, SelectionEngine, SelectionInput};
use sito::state::Sample;

const NARINFO: &str = "StorePath: /nix/store/aaaaaaaaaaaaaaaaaaaaaaaaaaaaaaaa-hello-1\n\
URL: nar/deadbeef.nar.xz\n\
Compression: xz\n";
const NAR_BYTES: &[u8] = b"not really a nar, but bytes are bytes";

/// Mock upstream: serves the given (path, body) pairs, or nothing at all.
struct Mock {
    base: String,
    routes: Vec<(&'static str, &'static [u8])>,
    dead: bool,
    asked: Vec<String>,
}

fn mock_upstream(port: u16, routes: Vec<(&'static str, &'static [u8])>) -> Mock {
    Mock {
        base: format!("http://127.0.0.1:{port}"),
        routes,
        dead: false,
        asked: Vec::new(),
    }
}

fn sample(x: f64) -> Sample {
    let m = Measure::from_bits(x.to_bits());
    Sample { newest: m, blended: m }
}

struct Net {
    app: App,
    mocks: Vec<Mock>,
}

/// The proxy wired to the given upstreams, one tier each.
fn sito_at(mocks: Vec<Mock>) -> Net {
    let tiers = mocks
        .iter()
        .map(|m| TierFile {
            strategy: None,
            upstreams: Some(vec![UpstreamFile { url: m.base.clone(), public_keys: None }]),
        })
        .collect();
    let cfg = Config::parse(Ok(ConfigFile {
        listen: Some("127.0.0.1:0".to_string()),
        probe_interval_secs: None,
        probe_timeout_secs: None,
        max_inflight: None,
        tiers: Some(tiers),
    }))
    .unwrap();
    Net { app: sito::build(&cfg), mocks }
}

impl Net {
    fn call(&mut self, url: &str) -> (Outcome, &'static [u8]) {
        for m in &mut self.mocks {
            if let Some(path) = url.strip_prefix(m.base.as_str()) {
                m.asked.push(path.to_string());
                if m.dead {
                    return (Outcome::Failed, b"");
                }
                if path == "/nix-cache-info" {
                    return (Outcome::Status(200), b"StoreDir: /nix/store\n");
                }
                return match m.routes.iter().find(|(p, _)| *p == path) {
                    Some((_, body)) => (Outcome::Status(200), *body),
                    None => (Outcome::Status(404), b"nope"),
                };
            }
        }
        panic!("no upstream for {url}")
    }

    fn probe(&mut self) -> Vec<(usize, bool)> {
        let mut flips = Vec::new();
        let mut pass = probe_all(&self.app.registry);
        while let Some(probe) = pass.next() {
            let (outcome, _) = self.call(&probe.url);
            if let Some(up) = pass.settle(&mut self.app.registry, outcome, sample(5.0)) {
                flips.push((probe.index, up));
            }
        }
        flips
    }

    fn request(&mut self, method: Method, path: &str) -> (u16, Vec<u8>) {
        match handle(method, path) {
            Dispatch::Answer(reply) => sent(reply),
            Dispatch::Status => {
                let report = status(&self.app, 0);
                (200, format!("{}", report.upstreams.len()).into_bytes())
            }
            Dispatch::Forward { kind, head } => self.forward(kind, head, path),
        }
    }

    fn get(&mut self, path: &str) -> (u16, Vec<u8>) {
        self.request(Method::Get, path)
    }

    fn forward(&mut self, kind: RequestKind, head: bool, path: &str) -> (u16, Vec<u8>) {
        let mut walk = forward(&self.app, &DefaultEngine, kind, head, path);
        while let Some(fetch) = walk.fetch(&self.app.registry) {
            assert!(walk.answer().is_none());
            let (outcome, body) = self.call(&fetch.url);
            if walk.settle(&mut self.app, outcome, sample(3.0)) != Verdict::Hit {
                continue;
            }
            let upstream = UpstreamHead {
                content_type: None,
                content_length: Some(body.len().to_string()),
            };
            return match relay(kind, head, &upstream) {
                Relay::Answer(reply) => sent(reply),
                Relay::Buffer { headers, limit } => {
                    assert_eq!(limit, 1 << 20);
                    sent(finish_narinfo(&mut self.app, fetch.index, headers, Some(body.to_vec())))
                }
                Relay::Stream { code, len, chunked, .. } => {
                    assert_eq!(len, Some(body.len()));
                    assert!(!chunked);
                    (code, body.to_vec())
                }
            };
        }
        sent(walk.answer().unwrap())
    }
}

fn sent(reply: Reply) -> (u16, Vec<u8>) {
    let body = match reply.body {
        Body::Empty => Vec::new(),
        Body::Text(text) => text.into_bytes(),
        Body::Data(data) => data,
    };
    (reply.code, body)
}

#[test]
fn proxies_narinfo_and_nar_verbatim_with_tier_fallback() {
    // First upstream misses everything; second has the goods — tier order
    // must fall through, and bytes must pass unmodified.
    let empty = mock_upstream(1, vec![]);
    let full = mock_upstream(
        2,
        vec![
            ("/abc.narinfo", NARINFO.as_bytes()),
            ("/nar/deadbeef.nar.xz", NAR_BYTES),
        ],
    );
    let mut net = sito_at(vec![empty, full]);

    let (code, body) = net.get("/abc.narinfo");
    assert_eq!(code, 200);
    assert_eq!(body, NARINFO.as_bytes());

    let (code, body) = net.get("/nar/deadbeef.nar.xz");
    assert_eq!(code, 200);
    assert_eq!(body, NAR_BYTES);

    // Everything misses -> 404.
    let (code, body) = net.get("/zzz.narinfo");
    assert_eq!(code, 404);
    assert_eq!(body, b"no upstream has this path");
}

#[test]
fn own_endpoints_and_read_only() {
    let up = mock_upstream(1, vec![]);
    let url = up.base.clone();
    let mut net = sito_at(vec![up]);

    let (code, body) = net.get("/nix-cache-info");
    assert_eq!(code, 200);
    assert!(String::from_utf8(body).unwrap().contains("StoreDir: /nix/store"));

    let (code, _) = net.get("/status");
    assert_eq!(code, 200);
    let report = status(&net.app, 3812);
    assert_eq!(report.upstreams.len(), 1);
    assert_eq!(report.upstreams[0].url, url);
    assert_eq!(report.uptime_secs, 3812);
    assert_eq!(report.affinity_entries, 0);

    let (code, body) = net.request(Method::Other, "/abc.narinfo");
    assert_eq!(code, 405);
    assert_eq!(body, b"sito is read-only");
    assert!(net.mocks[0].asked.is_empty());
}

#[test]
fn dead_upstream_is_survived() {
    let mut dead = mock_upstream(1, vec![]);
    dead.dead = true;
    let full = mock_upstream(2, vec![("/abc.narinfo", NARINFO.as_bytes())]);
    let mut net = sito_at(vec![dead, full]);

    let (code, body) = net.get("/abc.narinfo");
    assert_eq!(code, 200);
    assert_eq!(body, NARINFO.as_bytes());

    // The failure marked it down and asked for a probe pass; it is not asked
    // again until a probe brings it back.
    assert!(net.app.prober.pending());
    assert_eq!(net.app.registry.get(0).healthy, Some(false));
    assert_eq!(net.app.registry.get(0).errors, 1);
    net.get("/abc.narinfo");
    assert_eq!(net.mocks[0].asked.len(), 1);
    net.mocks[0].dead = false;
    assert_eq!(net.probe(), vec![(0, true), (1, true)]);
    net.get("/abc.narinfo");
    assert_eq!(net.mocks[0].asked.last().unwrap(), "/abc.narinfo");
}

#[test]
fn nar_affinity_prefers_the_upstream_that_served_the_narinfo() {
    // After the narinfo was served from the second upstream (the first one
    // misses it), the NAR request must follow affinity straight to it.
    let a = mock_upstream(1, vec![]);
    let b = mock_upstream(
        2,
        vec![
            ("/abc.narinfo", NARINFO.as_bytes()),
            ("/nar/deadbeef.nar.xz", NAR_BYTES),
        ],
    );
    let mut net = sito_at(vec![a, b]);

    net.get("/abc.narinfo");
    let (code, body) = net.get("/nar/deadbeef.nar.xz");
    assert_eq!(code, 200);
    assert_eq!(body, NAR_BYTES);

    assert_eq!(status(&net.app, 0).affinity_entries, 1);
    assert_eq!(net.mocks[0].asked, vec!["/abc.narinfo"]);
}

#[test]
fn affinity_is_a_preference_not_a_pin() {
    let a = mock_upstream(1, vec![("/nar/deadbeef.nar.xz", NAR_BYTES)]);
    let b = mock_upstream(2, vec![("/abc.narinfo", NARINFO.as_bytes())]);
    let mut net = sito_at(vec![a, b]);
    net.get("/abc.narinfo");
    let (code, body) = net.get("/nar/deadbeef.nar.xz");
    assert_eq!(code, 200);
    assert_eq!(body, NAR_BYTES);
    assert_eq!(net.app.registry.get(1).misses, 1);
    assert_eq!(net.app.registry.get(0).hits, 1);
}

#[test]
fn every_attempt_is_counted_once() {
    let a = mock_upstream(1, vec![]);
    let mut b = mock_upstream(2, vec![]);
    b.dead = true;
    let c = mock_upstream(3, vec![("/abc.narinfo", NARINFO.as_bytes())]);
    let d = mock_upstream(4, vec![("/abc.narinfo", NARINFO.as_bytes())]);
    let mut net = sito_at(vec![a, b, c, d]);
    net.get("/abc.narinfo");
    let counts: Vec<(u64, u64, u64)> = net
        .app
        .registry
        .snapshot()
        .iter()
        .map(|u| (u.hits, u.misses, u.errors))
        .collect();
    assert_eq!(counts, vec![(0, 1, 0), (0, 0, 1), (1, 0, 0), (0, 0, 0)]);
    assert_eq!(net.app.registry.get(2).narinfo_ms, Some(sample(3.0).newest));
    assert!(net.mocks[3].asked.is_empty());
}

#[test]
fn nobody_is_asked_when_all_are_down() {
    let mut a = mock_upstream(1, vec![("/abc.narinfo", NARINFO.as_bytes())]);
    a.dead = true;
    let mut net = sito_at(vec![a]);
    assert_eq!(net.probe(), vec![(0, false)]);
    assert_eq!(net.probe(), vec![]);
    let asked = net.mocks[0].asked.len();
    let (code, _) = net.get("/abc.narinfo");
    assert_eq!(code, 404);
    assert_eq!(net.mocks[0].asked.len(), asked);
    // Its own answer needs no upstream.
    assert_eq!(net.get("/nix-cache-info").0, 200);
}

#[test]
fn head_is_answered_without_a_body() {
    let a = mock_upstream(1, vec![("/abc.narinfo", NARINFO.as_bytes())]);
    let mut net = sito_at(vec![a]);
    assert_eq!(net.request(Method::Head, "/abc.narinfo"), (200, vec![]));
    assert_eq!(status(&net.app, 0).affinity_entries, 0);
    assert_eq!(net.app.registry.get(0).hits, 1);
}

#[test]
fn requests_are_routed_by_path() {
    let route = |path: &str| match handle(Method::Get, path) {
        Dispatch::Answer(reply) => reply.code.to_string(),
        Dispatch::Status => "status".to_string(),
        Dispatch::Forward { kind, head } => {
            assert!(!head);
            format!("{kind:?}")
        }
    };
    assert_eq!(route("/nix-cache-info"), "200");
    assert_eq!(route("/status"), "status");
    assert_eq!(route("/abc.narinfo"), "Narinfo");
    assert_eq!(route("/nar/abc.nar.xz"), "Nar");
    assert_eq!(route("/nar/abc.narinfo"), "Narinfo");
    assert_eq!(route("/nar"), "404");
    assert_eq!(route("/"), "404");
    assert_eq!(route("/status?x"), "404");
    assert_eq!(route("nar/x"), "404");
    assert!(matches!(
        handle(Method::Head, "/nar/abc.nar.xz"),
        Dispatch::Forward { kind: RequestKind::Nar, head: true }
    ));
    let (code, body) = match handle(Method::Head, "/nix-cache-info") {
        Dispatch::Answer(reply) => sent(reply),
        other => panic!("{other:?}"),
    };
    assert_eq!(code, 200);
    assert_eq!(body, b"StoreDir: /nix/store\nWantMassQuery: 1\nPriority: 10\n");
}

#[test]
fn only_two_headers_are_passed_on() {
    let upstream = UpstreamHead {
        content_type: Some("text/x-nix-narinfo".to_string()),
        content_length: Some("12".to_string()),
    };
    match relay(RequestKind::Nar, false, &upstream) {
        Relay::Stream { code, headers, len, chunked } => {
            let pairs: Vec<(&str, &str)> =
                headers.iter().map(|h| (h.name.as_str(), h.value.as_str())).collect();
            assert_eq!(
                pairs,
                vec![("Content-Type", "text/x-nix-narinfo"), ("Content-Length", "12")]
            );
            assert_eq!((code, len, chunked), (200, Some(12), false));
        }
        other => panic!("{other:?}"),
    }
    let silent = UpstreamHead { content_type: None, content_length: Some("many".to_string()) };
    match relay(RequestKind::Nar, false, &silent) {
        Relay::Stream { headers, len, chunked, .. } => {
            assert_eq!(headers.len(), 1);
            assert_eq!((len, chunked), (None, true));
        }
        other => panic!("{other:?}"),
    }
}

#[test]
fn a_narinfo_that_cannot_be_read_is_a_bad_gateway() {
    let mut net = sito_at(vec![mock_upstream(1, vec![])]);
    let reply = finish_narinfo(&mut net.app, 0, Vec::new(), None);
    assert_eq!(sent(reply), (502, b"upstream read failed".to_vec()));
    let reply = finish_narinfo(&mut net.app, 0, Vec::new(), Some(vec![0xff, b'\n']));
    assert_eq!(sent(reply), (200, vec![0xff, b'\n']));
    assert_eq!(net.app.registry.affinity_len(), 0);
}

#[test]
fn selection_sees_the_registry_through_the_tiers() {
    let mut net = sito_at(vec![mock_upstream(1, vec![]), mock_upstream(2, vec![])]);
    net.app.registry.set_affinity("nar/x".to_string(), 1);
    net.app.registry.record_miss(0);
    let input = selection_input(&net.app, RequestKind::Nar, "//nar/x");
    assert_eq!(input.affinity, Some(1));
    assert_eq!(input.path, "//nar/x");
    assert_eq!(input.tiers.len(), 2);
    assert_eq!(input.tiers[0].upstreams[0].misses, 1);
    assert_eq!(input.tiers[1].upstreams[0].index, 1);
    let input = selection_input(&net.app, RequestKind::Narinfo, "/nar/x");
    assert_eq!(input.affinity, None);
}

struct Backwards;

impl SelectionEngine for Backwards {
    fn plan(&self, input: &SelectionInput) -> Plan {
        let mut attempts = DefaultEngine.plan(input).attempts;
        attempts.reverse();
        Plan { attempts }
    }
}

#[test]
fn another_engine_slots_in() {
    let net = sito_at(vec![mock_upstream(1, vec![]), mock_upstream(2, vec![])]);
    let walk = forward(&net.app, &Backwards, RequestKind::Narinfo, true, "/a.narinfo");
    let fetch = walk.fetch(&net.app.registry).unwrap();
    assert_eq!(fetch.index, 1);
    assert_eq!(fetch.url, "http://127.0.0.1:2/a.narinfo");
    assert!(fetch.head);
    assert_eq!(walk.next_index(), Some(1));
}

#[test]
fn kicks_coalesce_until_taken() {
    let mut net = sito_at(vec![mock_upstream(1, vec![])]);
    let prober = &mut net.app.prober;
    assert!(!prober.pending());
    prober.kick();
    prober.kick();
    assert!(prober.take());
    assert!(!prober.take());
}
