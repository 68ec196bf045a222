use serde_json::{Number, Value};
use sito::config::Strategy;
use sito::measure::Measure;
use sito::select::{DefaultEngine, Plan, RequestKind, SelectionEngine, SelectionInput, TierInput};
use sito::state::UpstreamSnapshot;

fn ms(x: f64) -> Measure {
    Measure::from_bits(x.to_bits())
}

fn snap(index: usize, tier: usize) -> UpstreamSnapshot {
    UpstreamSnapshot {
        index,
        url: format!("http://u{index}"),
        tier,
        healthy: None,
        probe_ms: None,
        narinfo_ms: None,
        nar_mbps: None,
        hits: 0,
        misses: 0,
        errors: 0,
    }
}

fn input(tiers: Vec<Vec<UpstreamSnapshot>>) -> SelectionInput {
    SelectionInput {
        kind: RequestKind::Narinfo,
        path: "/x.narinfo".into(),
        affinity: None,
        tiers: tiers
            .into_iter()
            .map(|upstreams| TierInput {
                strategy: Strategy::Sequential,
                upstreams,
            })
            .collect(),
    }
}

#[test]
fn cold_start_follows_config_order() {
    let plan = DefaultEngine.plan(&input(vec![vec![snap(0, 0), snap(1, 0)], vec![snap(2, 1)]]));
    assert_eq!(plan.attempts, vec![0, 1, 2]);
}

#[test]
fn down_upstreams_are_skipped() {
    let mut a = snap(0, 0);
    a.healthy = Some(false);
    let plan = DefaultEngine.plan(&input(vec![vec![a, snap(1, 0)]]));
    assert_eq!(plan.attempts, vec![1]);
}

#[test]
fn all_down_means_empty_plan() {
    let mut a = snap(0, 0);
    a.healthy = Some(false);
    let plan = DefaultEngine.plan(&input(vec![vec![a]]));
    assert!(plan.attempts.is_empty());
}

#[test]
fn faster_upstream_ranks_first_within_tier() {
    let mut slow = snap(0, 0);
    slow.narinfo_ms = Some(ms(200.0));
    let mut fast = snap(1, 0);
    fast.narinfo_ms = Some(ms(5.0));
    let plan = DefaultEngine.plan(&input(vec![vec![slow, fast]]));
    assert_eq!(plan.attempts, vec![1, 0]);
}

#[test]
fn tier_order_beats_speed() {
    let mut slow_tier0 = snap(0, 0);
    slow_tier0.narinfo_ms = Some(ms(500.0));
    let mut fast_tier1 = snap(1, 1);
    fast_tier1.narinfo_ms = Some(ms(1.0));
    let plan = DefaultEngine.plan(&input(vec![vec![slow_tier0], vec![fast_tier1]]));
    assert_eq!(plan.attempts, vec![0, 1]);
}

#[test]
fn affinity_goes_first_unless_down() {
    let mut inp = input(vec![vec![snap(0, 0), snap(1, 0)]]);
    inp.kind = RequestKind::Nar;
    inp.affinity = Some(1);
    assert_eq!(DefaultEngine.plan(&inp).attempts, vec![1, 0]);

    inp.tiers[0].upstreams[1].healthy = Some(false);
    assert_eq!(DefaultEngine.plan(&inp).attempts, vec![0]);
}

fn number(m: Option<Measure>) -> Value {
    match m {
        Some(m) => Value::Number(Number::from_f64(f64::from_bits(m.to_bits())).unwrap()),
        None => Value::Null,
    }
}

fn object(fields: Vec<(&str, Value)>) -> Value {
    let mut map = serde_json::Map::new();
    for (k, v) in fields {
        map.insert(k.to_string(), v);
    }
    Value::Object(map)
}

fn input_value(inp: &SelectionInput) -> Value {
    let tiers = inp.tiers.iter().map(|t| {
        let upstreams = t.upstreams.iter().map(|u| {
            object(vec![
                ("index", Value::from(u.index)),
                ("url", Value::from(u.url.as_str())),
                ("tier", Value::from(u.tier)),
                ("healthy", u.healthy.map_or(Value::Null, Value::from)),
                ("probe_ms", number(u.probe_ms)),
                ("narinfo_ms", number(u.narinfo_ms)),
                ("nar_mbps", number(u.nar_mbps)),
                ("hits", Value::from(u.hits)),
                ("misses", Value::from(u.misses)),
                ("errors", Value::from(u.errors)),
            ])
        });
        object(vec![
            ("strategy", Value::from(if t.strategy == Strategy::Race { "race" } else { "sequential" })),
            ("upstreams", Value::Array(upstreams.collect())),
        ])
    });
    object(vec![
        ("kind", Value::from(if inp.kind == RequestKind::Nar { "nar" } else { "narinfo" })),
        ("path", Value::from(inp.path.as_str())),
        ("affinity", inp.affinity.map_or(Value::Null, Value::from)),
        ("tiers", Value::Array(tiers.collect())),
    ])
}

fn input_of(v: &Value) -> SelectionInput {
    let size = |v: &Value| v.as_u64().unwrap() as usize;
    let measure = |v: &Value| v.as_f64().map(ms);
    let tiers = v["tiers"].as_array().unwrap().iter().map(|t| TierInput {
        strategy: if t["strategy"] == "race" { Strategy::Race } else { Strategy::Sequential },
        upstreams: t["upstreams"]
            .as_array()
            .unwrap()
            .iter()
            .map(|u| UpstreamSnapshot {
                index: size(&u["index"]),
                url: u["url"].as_str().unwrap().to_string(),
                tier: size(&u["tier"]),
                healthy: u["healthy"].as_bool(),
                probe_ms: measure(&u["probe_ms"]),
                narinfo_ms: measure(&u["narinfo_ms"]),
                nar_mbps: measure(&u["nar_mbps"]),
                hits: u["hits"].as_u64().unwrap(),
                misses: u["misses"].as_u64().unwrap(),
                errors: u["errors"].as_u64().unwrap(),
            })
            .collect(),
    });
    SelectionInput {
        kind: if v["kind"] == "nar" { RequestKind::Nar } else { RequestKind::Narinfo },
        path: v["path"].as_str().unwrap().to_string(),
        affinity: v["affinity"].as_u64().map(|n| n as usize),
        tiers: tiers.collect(),
    }
}

#[test]
fn boundary_types_round_trip_through_json() {
    let inp = input(vec![vec![snap(0, 0)]]);
    let json = serde_json::to_string(&input_value(&inp)).unwrap();
    let back = input_of(&serde_json::from_str::<Value>(&json).unwrap());
    let plan = DefaultEngine.plan(&back);
    let attempts: Vec<usize> =
        serde_json::from_str(&serde_json::to_string(&plan.attempts).unwrap()).unwrap();
    let _ = Plan { attempts };
    assert_eq!(plan.attempts, vec![0]);
}

#[test]
fn measurements_survive_the_boundary() {
    let mut u = snap(3, 1);
    u.narinfo_ms = Some(ms(3.2));
    u.probe_ms = Some(ms(0.1));
    u.healthy = Some(true);
    let back = input_of(&input_value(&input(vec![vec![u]])));
    assert_eq!(back.tiers[0].upstreams[0].narinfo_ms, Some(ms(3.2)));
    assert_eq!(back.tiers[0].upstreams[0].probe_ms, Some(ms(0.1)));
    assert_eq!(back.tiers[0].upstreams[0].healthy, Some(true));
}

#[test]
fn probe_latency_stands_in_for_narinfo_latency() {
    let mut a = snap(0, 0);
    a.narinfo_ms = Some(ms(30.0));
    a.probe_ms = Some(ms(1.0));
    let mut b = snap(1, 0);
    b.probe_ms = Some(ms(20.0));
    let c = snap(2, 0);
    let d = snap(3, 0);
    let plan = DefaultEngine.plan(&input(vec![vec![c, a, d, b]]));
    assert_eq!(plan.attempts, vec![1, 0, 2, 3]);
}

#[test]
fn equal_scores_keep_config_order() {
    let mut tier = Vec::new();
    for i in 0..6 {
        let mut u = snap(i, 0);
        u.narinfo_ms = Some(ms(if i % 2 == 0 { 7.0 } else { 3.0 }));
        tier.push(u);
    }
    assert_eq!(DefaultEngine.plan(&input(vec![tier])).attempts, vec![1, 3, 5, 0, 2, 4]);
}

#[test]
fn an_unlisted_affinity_is_still_tried_first() {
    let mut inp = input(vec![vec![snap(0, 0)]]);
    inp.affinity = Some(9);
    assert_eq!(DefaultEngine.plan(&inp).attempts, vec![9, 0]);
}

#[test]
fn ranking_agrees_with_a_stable_sort_of_doubles() {
    let values = [
        Some(5.0),
        None,
        Some(0.25),
        Some(f64::INFINITY),
        Some(5.0),
        Some(0.0),
        Some(-0.0),
        Some(-3.5),
        Some(1e-300),
        Some(f64::MAX),
        None,
        Some(5.000000000000001),
        Some(f64::MIN_POSITIVE),
    ];
    let mut tier = Vec::new();
    for (i, v) in values.iter().enumerate() {
        let mut u = snap(i, 0);
        u.narinfo_ms = v.map(ms);
        tier.push(u);
    }
    let mut expected: Vec<usize> = (0..values.len()).collect();
    expected.sort_by(|a, b| {
        let key = |v: Option<f64>| (v.is_none(), v.unwrap_or(0.0));
        key(values[*a]).partial_cmp(&key(values[*b])).unwrap()
    });
    assert_eq!(DefaultEngine.plan(&input(vec![tier])).attempts, expected);
}

#[test]
fn unmeasured_goes_behind_any_measurement() {
    let mut slowest = snap(1, 0);
    slowest.probe_ms = Some(ms(f64::INFINITY));
    let mut slow = snap(2, 0);
    slow.narinfo_ms = Some(ms(f64::MAX));
    let plan = DefaultEngine.plan(&input(vec![vec![snap(0, 0), slowest, slow]]));
    assert_eq!(plan.attempts, vec![2, 1, 0]);
}

#[test]
fn a_latency_that_is_no_number_compares_with_nothing() {
    let tier = |values: &[f64]| -> Vec<usize> {
        let mut us = Vec::new();
        for (i, v) in values.iter().enumerate() {
            let mut u = snap(i, 0);
            u.narinfo_ms = Some(ms(*v));
            us.push(u);
        }
        DefaultEngine.plan(&input(vec![us])).attempts
    };
    assert_eq!(tier(&[f64::NAN, 5.0]), vec![0, 1]);
    assert_eq!(tier(&[5.0, f64::NAN]), vec![0, 1]);
    assert_eq!(tier(&[5.0, f64::NAN, 3.0]), vec![0, 1, 2]);
    assert_eq!(tier(&[f64::NAN, 5.0, 3.0]), vec![0, 2, 1]);
    assert_eq!(tier(&[0.0, -0.0]), vec![0, 1]);
    assert_eq!(tier(&[-0.0, 0.0]), vec![0, 1]);
}

#[test]
fn a_plan_ignores_what_it_is_not_ranked_by() {
    let build = |noisy: bool| {
        let mut a = snap(0, 0);
        a.narinfo_ms = Some(ms(9.0));
        let mut b = snap(1, 0);
        b.narinfo_ms = Some(ms(4.0));
        if noisy {
            a.url = "http://elsewhere".into();
            a.healthy = Some(true);
            a.probe_ms = Some(ms(0.5));
            a.nar_mbps = Some(ms(900.0));
            b.errors = 70;
            b.misses = 12;
            a.hits = 1000;
        }
        DefaultEngine.plan(&input(vec![vec![a, b]])).attempts
    };
    assert_eq!(build(false), vec![1, 0]);
    assert_eq!(build(true), build(false));
}
