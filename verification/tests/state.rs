use sito::measure::Measure;
use sito::state::{ewma, Registry, Sample, AFFINITY_CAP};

fn ms(x: f64) -> Measure {
    Measure::from_bits(x.to_bits())
}

fn number(m: Measure) -> f64 {
    f64::from_bits(m.to_bits())
}

fn sample(average: Option<Measure>, x: f64) -> Sample {
    Sample {
        newest: ms(x),
        blended: ms(average.map_or(x, |p| 0.3 * x + 0.7 * number(p))),
    }
}

#[test]
fn ewma_starts_at_first_sample() {
    assert_eq!(number(ewma(None, sample(None, 10.0))), 10.0);
    let second = number(ewma(Some(ms(10.0)), sample(Some(ms(10.0)), 20.0)));
    assert!(second > 10.0 && second < 20.0);
}

#[test]
fn affinity_cap_clears() {
    let mut reg = Registry::new(&[vec!["http://a".into()]]);
    for i in 0..AFFINITY_CAP {
        reg.set_affinity(format!("nar/{i}"), 0);
    }
    assert_eq!(reg.affinity_len(), AFFINITY_CAP);
    reg.set_affinity("nar/one-more".into(), 0);
    assert_eq!(reg.affinity_len(), 1);
    assert_eq!(reg.affinity("nar/one-more"), Some(0));
}

#[test]
fn error_marks_down_probe_recovers() {
    let mut reg = Registry::new(&[vec!["http://a".into()]]);
    reg.record_error(0);
    assert_eq!(reg.snapshot()[0].healthy, Some(false));
    reg.record_probe(0, Some(sample(None, 5.0)));
    assert_eq!(reg.snapshot()[0].healthy, Some(true));
}

#[test]
fn upstreams_are_numbered_across_tiers() {
    let reg = Registry::new(&[
        vec!["http://a".into(), "http://b/".into()],
        vec![],
        vec!["http://c".into()],
    ]);
    assert_eq!(reg.len(), 3);
    let snaps = reg.snapshot();
    let ids: Vec<(usize, &str, usize)> =
        snaps.iter().map(|u| (u.index, u.url.as_str(), u.tier)).collect();
    assert_eq!(ids, vec![(0, "http://a", 0), (1, "http://b/", 0), (2, "http://c", 2)]);
    for u in &snaps {
        assert_eq!(u.healthy, None);
        assert_eq!((u.probe_ms, u.narinfo_ms, u.nar_mbps), (None, None, None));
        assert_eq!((u.hits, u.misses, u.errors), (0, 0, 0));
    }
    assert_eq!(reg.url(1), "http://b/");
    assert_eq!(reg.get(2).tier, 2);
}

#[test]
fn each_record_touches_its_own_numbers() {
    let mut reg = Registry::new(&[vec!["http://a".into(), "http://b".into()]]);
    reg.record_narinfo_hit(1, sample(None, 10.0));
    let avg = reg.get(1).narinfo_ms;
    reg.record_narinfo_hit(1, sample(avg, 20.0));
    reg.record_hit(1);
    reg.record_miss(1);
    reg.record_miss(1);
    reg.record_nar_throughput(1, sample(None, 84.5));
    let u = reg.get(1);
    assert_eq!((u.hits, u.misses, u.errors), (3, 2, 0));
    assert_eq!(u.narinfo_ms.map(number), Some(0.3 * 20.0 + 0.7 * 10.0));
    assert_eq!(u.nar_mbps.map(number), Some(84.5));
    assert_eq!(u.probe_ms, None);
    assert_eq!(u.healthy, None);
    let other = reg.get(0);
    assert_eq!((other.hits, other.misses, other.errors), (0, 0, 0));
    assert_eq!(other.narinfo_ms, None);
}

#[test]
fn failed_probe_adds_no_sample() {
    let mut reg = Registry::new(&[vec!["http://a".into()]]);
    reg.record_probe(0, Some(sample(None, 5.0)));
    reg.record_probe(0, None);
    assert_eq!(reg.get(0).healthy, Some(false));
    assert_eq!(reg.get(0).probe_ms.map(number), Some(5.0));
    assert_eq!(reg.get(0).errors, 0);
}

#[test]
fn affinity_reads_back_what_was_set_last() {
    let mut reg = Registry::new(&[vec!["http://a".into(), "http://b".into()]]);
    assert_eq!(reg.affinity("nar/x"), None);
    reg.set_affinity("nar/x".into(), 0);
    reg.set_affinity("nar/y".into(), 0);
    reg.set_affinity("nar/x".into(), 1);
    assert_eq!(reg.affinity("nar/x"), Some(1));
    assert_eq!(reg.affinity("nar/y"), Some(0));
    assert_eq!(reg.affinity("/nar/x"), None);
    assert_eq!(reg.affinity_len(), 2);
}
