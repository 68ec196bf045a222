//! In-memory upstream state: health, quality averages, NAR affinity.
//!
//! Every start is a cold start: nothing persists, and rank falls back to
//! config order until probes and traffic fill the numbers in.
use crate::measure::Measure;
use vstd::hash_map::StringHashMap;
use vstd::prelude::*;

verus! {

/// How many affinity entries to hold before dropping them all. Affinity
/// metadata only, not response caching.
pub const AFFINITY_CAP: usize = 4096;

/// A new measurement, and its weighted mean with the average it goes into.
#[derive(Debug, Clone, Copy, PartialEq, Eq, Structural)]
pub struct Sample {
    pub newest: Measure,
    /// The weighted mean of `newest` and the average so far. Ignored where
    /// there is no average yet.
    pub blended: Measure,
}

/// The moving average after a sample: seeded with the first one.
pub open spec fn averaged(prev: Option<Measure>, sample: Sample) -> Measure {
    match prev {
        Some(_) => sample.blended,
        None => sample.newest,
    }
}

/// Takes a sample into a moving average.
pub fn ewma(prev: Option<Measure>, sample: Sample) -> (m: Measure)
    ensures
        m == averaged(prev, sample),
{
    match prev {
        Some(_) => sample.blended,
        None => sample.newest,
    }
}

/// What is known of one upstream, as fed to the selection engine and reported
/// as status.
#[derive(Debug)]
pub struct UpstreamSnapshot {
    /// Index into the flat config-order upstream list; the id the selection
    /// plan speaks in.
    pub index: usize,
    pub url: String,
    pub tier: usize,
    /// `None` until the first probe answers.
    pub healthy: Option<bool>,
    pub probe_ms: Option<Measure>,
    pub narinfo_ms: Option<Measure>,
    /// Megabytes per second.
    pub nar_mbps: Option<Measure>,
    pub hits: u64,
    pub misses: u64,
    pub errors: u64,
}

impl Clone for UpstreamSnapshot {
    fn clone(&self) -> (r: Self)
        ensures
            r == *self,
    {
        UpstreamSnapshot {
            index: self.index,
            url: self.url.clone(),
            tier: self.tier,
            healthy: self.healthy,
            probe_ms: self.probe_ms,
            narinfo_ms: self.narinfo_ms,
            nar_mbps: self.nar_mbps,
            hits: self.hits,
            misses: self.misses,
            errors: self.errors,
        }
    }
}

impl UpstreamSnapshot {
    /// An upstream that nothing is known of yet.
    pub open spec fn cold(index: usize, url: String, tier: usize) -> UpstreamSnapshot {
        UpstreamSnapshot {
            index,
            url,
            tier,
            healthy: None,
            probe_ms: None,
            narinfo_ms: None,
            nar_mbps: None,
            hits: 0,
            misses: 0,
            errors: 0,
        }
    }

    /// After a probe: an answer brings the upstream up and adds a sample, its
    /// absence marks the upstream down and adds none.
    pub open spec fn probed(self, result: Option<Sample>) -> UpstreamSnapshot {
        match result {
            Some(sample) => UpstreamSnapshot {
                healthy: Some(true),
                probe_ms: Some(averaged(self.probe_ms, sample)),
                ..self
            },
            None => UpstreamSnapshot { healthy: Some(false), ..self },
        }
    }

    /// After serving a narinfo.
    pub open spec fn with_narinfo_hit(self, ms: Sample) -> UpstreamSnapshot {
        UpstreamSnapshot {
            hits: (self.hits + 1) as u64,
            narinfo_ms: Some(averaged(self.narinfo_ms, ms)),
            ..self
        }
    }

    /// After a complete NAR transfer.
    pub open spec fn with_throughput(self, mbps: Sample) -> UpstreamSnapshot {
        UpstreamSnapshot { nar_mbps: Some(averaged(self.nar_mbps, mbps)), ..self }
    }

    /// After serving a NAR.
    pub open spec fn with_hit(self) -> UpstreamSnapshot {
        UpstreamSnapshot { hits: (self.hits + 1) as u64, ..self }
    }

    /// After lacking a path.
    pub open spec fn with_miss(self) -> UpstreamSnapshot {
        UpstreamSnapshot { misses: (self.misses + 1) as u64, ..self }
    }

    /// After a transport error: counted, and down right away.
    pub open spec fn with_error(self) -> UpstreamSnapshot {
        UpstreamSnapshot { errors: (self.errors + 1) as u64, healthy: Some(false), ..self }
    }

    /// Whether every counter can still take one more.
    pub open spec fn countable(self) -> bool {
        self.hits < u64::MAX && self.misses < u64::MAX && self.errors < u64::MAX
    }

    /// Whether this is the same configured upstream as `other`.
    pub open spec fn same_upstream(self, other: UpstreamSnapshot) -> bool {
        self.index == other.index && self.url == other.url && self.tier == other.tier
    }
}

/// The URLs of each tier.
pub open spec fn url_views(urls_by_tier: Seq<Vec<String>>) -> Seq<Seq<String>> {
    urls_by_tier.map_values(|urls: Vec<String>| urls@)
}

/// The upstreams of all tiers in config order, numbered from 0, each cold.
pub open spec fn cold_upstreams(urls_by_tier: Seq<Seq<String>>) -> Seq<UpstreamSnapshot>
    decreases urls_by_tier.len(),
{
    if urls_by_tier.len() == 0 {
        Seq::empty()
    } else {
        let before = cold_upstreams(urls_by_tier.drop_last());
        let urls = urls_by_tier.last();
        before + Seq::new(
            urls.len(),
            |j: int|
                UpstreamSnapshot::cold(
                    (before.len() + j) as usize,
                    urls[j],
                    (urls_by_tier.len() - 1) as usize,
                ),
        )
    }
}

/// What a registry holds.
#[verifier::ext_equal]
pub struct RegistryView {
    /// By index.
    pub upstreams: Seq<UpstreamSnapshot>,
    /// NAR path to the upstream whose narinfo named it.
    pub affinity: Map<Seq<char>, usize>,
}

impl RegistryView {
    /// With upstream `index` replaced.
    pub open spec fn with(self, index: int, u: UpstreamSnapshot) -> RegistryView {
        RegistryView { upstreams: self.upstreams.update(index, u), ..self }
    }

    /// With one more affinity entry; a full map is dropped first.
    pub open spec fn with_affinity(self, nar_path: Seq<char>, index: usize) -> RegistryView {
        let kept = if self.affinity.len() >= AFFINITY_CAP {
            Map::empty()
        } else {
            self.affinity
        };
        RegistryView { affinity: kept.insert(nar_path, index), ..self }
    }

    /// The remembered upstream for a NAR path.
    pub open spec fn remembered(self, nar_path: Seq<char>) -> Option<usize> {
        if self.affinity.contains_key(nar_path) {
            Some(self.affinity[nar_path])
        } else {
            None
        }
    }

    /// Every upstream stands at its own index, and the affinity map is
    /// bounded.
    pub open spec fn wf(self) -> bool {
        &&& forall|i: int|
            0 <= i < self.upstreams.len() ==> (#[trigger] self.upstreams[i]).index == i
        &&& self.affinity.dom().finite()
        &&& self.affinity.len() <= AFFINITY_CAP
    }
}

/// All that is known of the upstreams, and the NAR affinity map.
pub struct Registry {
    upstreams: Vec<UpstreamSnapshot>,
    affinity: StringHashMap<usize>,
}

impl View for Registry {
    type V = RegistryView;

    closed spec fn view(&self) -> RegistryView {
        RegistryView { upstreams: self.upstreams@, affinity: self.affinity@ }
    }
}

impl Registry {
    pub open spec fn wf(self) -> bool {
        self@.wf()
    }

    /// Numbers the upstreams of all tiers in config order, all cold.
    pub fn new(urls_by_tier: &[Vec<String>]) -> (r: Registry)
        ensures
            r.wf(),
            r@.upstreams == cold_upstreams(url_views(urls_by_tier@)),
            r@.affinity == Map::<Seq<char>, usize>::empty(),
    {
        let ghost views = url_views(urls_by_tier@);
        let mut ups: Vec<UpstreamSnapshot> = Vec::new();
        let mut tier: usize = 0;
        assert(views.take(0) == Seq::<Seq<String>>::empty());
        while tier < urls_by_tier.len()
            invariant
                tier <= urls_by_tier@.len(),
                views == url_views(urls_by_tier@),
                ups@ == cold_upstreams(views.take(tier as int)),
                forall|i: int| 0 <= i < ups@.len() ==> (#[trigger] ups@[i]).index == i,
            decreases urls_by_tier@.len() - tier,
        {
            let urls = &urls_by_tier[tier];
            let ghost before = ups@;
            let ghost added = Seq::new(
                urls@.len(),
                |j: int| UpstreamSnapshot::cold((before.len() + j) as usize, urls@[j], tier),
            );
            let mut j: usize = 0;
            while j < urls.len()
                invariant
                    j <= urls@.len(),
                    added == Seq::new(
                        urls@.len(),
                        |j: int|
                            UpstreamSnapshot::cold((before.len() + j) as usize, urls@[j], tier),
                    ),
                    ups@ == before + added.take(j as int),
                    forall|i: int| 0 <= i < ups@.len() ==> (#[trigger] ups@[i]).index == i,
                decreases urls@.len() - j,
            {
                let index: usize = ups.len();
                ups.push(
                    UpstreamSnapshot {
                        index,
                        url: urls[j].clone(),
                        tier,
                        healthy: None,
                        probe_ms: None,
                        narinfo_ms: None,
                        nar_mbps: None,
                        hits: 0,
                        misses: 0,
                        errors: 0,
                    },
                );
                assert(ups@ == before + added.take(j + 1));
                j = j + 1;
            }
            proof {
                assert(added.take(j as int) == added);
                assert(views.take(tier + 1).drop_last() == views.take(tier as int));
                assert(views.take(tier + 1).last() == urls@);
                assert(ups@ == cold_upstreams(views.take(tier + 1)));
            }
            tier = tier + 1;
        }
        assert(views.take(tier as int) == views);
        Registry { upstreams: ups, affinity: StringHashMap::new() }
    }

    /// How many upstreams are configured.
    pub fn len(&self) -> (n: usize)
        ensures
            n == self@.upstreams.len(),
    {
        self.upstreams.len()
    }

    /// What is known of one upstream.
    pub fn get(&self, index: usize) -> (u: &UpstreamSnapshot)
        requires
            index < self@.upstreams.len(),
        ensures
            *u == self@.upstreams[index as int],
    {
        &self.upstreams[index]
    }

    /// What is known of every upstream, in config order.
    pub fn snapshot(&self) -> (s: Vec<UpstreamSnapshot>)
        ensures
            s@ == self@.upstreams,
    {
        let s = self.upstreams.clone();
        assert(s@ == self.upstreams@);
        s
    }

    /// Base URL of an upstream, exactly as configured.
    pub fn url(&self, index: usize) -> (url: String)
        requires
            index < self@.upstreams.len(),
        ensures
            url == self@.upstreams[index as int].url,
    {
        self.upstreams[index].url.clone()
    }

    /// Records the outcome of a probe.
    pub fn record_probe(&mut self, index: usize, result: Option<Sample>)
        requires
            index < old(self)@.upstreams.len(),
        ensures
            final(self)@ == old(self)@.with(
                index as int,
                old(self)@.upstreams[index as int].probed(result),
            ),
            old(self).wf() ==> final(self).wf(),
    {
        match result {
            Some(sample) => {
                self.upstreams[index].healthy = Some(true);
                self.upstreams[index].probe_ms = Some(
                    ewma(self.upstreams[index].probe_ms, sample),
                );
            },
            None => {
                self.upstreams[index].healthy = Some(false);
            },
        }
    }

    /// Records a narinfo served by an upstream and how long it took.
    pub fn record_narinfo_hit(&mut self, index: usize, ms: Sample)
        requires
            index < old(self)@.upstreams.len(),
            old(self)@.upstreams[index as int].hits < u64::MAX,
        ensures
            final(self)@ == old(self)@.with(
                index as int,
                old(self)@.upstreams[index as int].with_narinfo_hit(ms),
            ),
            old(self).wf() ==> final(self).wf(),
    {
        self.upstreams[index].hits = self.upstreams[index].hits + 1;
        self.upstreams[index].narinfo_ms = Some(ewma(self.upstreams[index].narinfo_ms, ms));
    }

    /// Records the throughput of a complete NAR transfer.
    pub fn record_nar_throughput(&mut self, index: usize, mbps: Sample)
        requires
            index < old(self)@.upstreams.len(),
        ensures
            final(self)@ == old(self)@.with(
                index as int,
                old(self)@.upstreams[index as int].with_throughput(mbps),
            ),
            old(self).wf() ==> final(self).wf(),
    {
        self.upstreams[index].nar_mbps = Some(ewma(self.upstreams[index].nar_mbps, mbps));
    }

    /// Records a NAR served by an upstream.
    pub fn record_hit(&mut self, index: usize)
        requires
            index < old(self)@.upstreams.len(),
            old(self)@.upstreams[index as int].hits < u64::MAX,
        ensures
            final(self)@ == old(self)@.with(
                index as int,
                old(self)@.upstreams[index as int].with_hit(),
            ),
            old(self).wf() ==> final(self).wf(),
    {
        self.upstreams[index].hits = self.upstreams[index].hits + 1;
    }

    /// Records that an upstream lacks a path.
    pub fn record_miss(&mut self, index: usize)
        requires
            index < old(self)@.upstreams.len(),
            old(self)@.upstreams[index as int].misses < u64::MAX,
        ensures
            final(self)@ == old(self)@.with(
                index as int,
                old(self)@.upstreams[index as int].with_miss(),
            ),
            old(self).wf() ==> final(self).wf(),
    {
        self.upstreams[index].misses = self.upstreams[index].misses + 1;
    }

    /// Records a transport error talking to an upstream: counted, and the
    /// upstream is down right away. A probe decides when it is back.
    pub fn record_error(&mut self, index: usize)
        requires
            index < old(self)@.upstreams.len(),
            old(self)@.upstreams[index as int].errors < u64::MAX,
        ensures
            final(self)@ == old(self)@.with(
                index as int,
                old(self)@.upstreams[index as int].with_error(),
            ),
            old(self).wf() ==> final(self).wf(),
    {
        self.upstreams[index].errors = self.upstreams[index].errors + 1;
        self.upstreams[index].healthy = Some(false);
    }

    /// Remembers which upstream's narinfo named a NAR path. A full map is
    /// dropped first.
    pub fn set_affinity(&mut self, nar_path: String, index: usize)
        ensures
            final(self)@ == old(self)@.with_affinity(nar_path@, index),
            old(self).wf() ==> final(self).wf(),
    {
        if self.affinity.len() >= AFFINITY_CAP {
            self.affinity.clear();
        }
        self.affinity.insert(nar_path, index);
    }

    /// The upstream whose narinfo named a NAR path, if remembered.
    pub fn affinity(&self, nar_path: &str) -> (r: Option<usize>)
        ensures
            r == self@.remembered(nar_path@),
    {
        match self.affinity.get(nar_path) {
            Some(index) => Some(*index),
            None => None,
        }
    }

    /// How many NAR paths are remembered.
    pub fn affinity_len(&self) -> (n: usize)
        ensures
            n == self@.affinity.len(),
    {
        self.affinity.len()
    }
}

/// How many upstreams all tiers hold.
pub open spec fn upstream_count(urls_by_tier: Seq<Seq<String>>) -> nat
    decreases urls_by_tier.len(),
{
    if urls_by_tier.len() == 0 {
        0
    } else {
        upstream_count(urls_by_tier.drop_last()) + urls_by_tier.last().len()
    }
}

/// The first tiers hold no more upstreams than all of them.
pub proof fn lemma_upstream_count(urls_by_tier: Seq<Seq<String>>, t: int)
    requires
        0 <= t <= urls_by_tier.len(),
    ensures
        upstream_count(urls_by_tier.take(t)) <= upstream_count(urls_by_tier),
        t < urls_by_tier.len() ==> upstream_count(urls_by_tier.take(t + 1)) == upstream_count(
            urls_by_tier.take(t),
        ) + urls_by_tier[t].len(),
        t < urls_by_tier.len() ==> upstream_count(urls_by_tier.take(t + 1)) <= upstream_count(
            urls_by_tier,
        ),
    decreases urls_by_tier.len() - t,
{
    if t == urls_by_tier.len() {
        assert(urls_by_tier.take(t) == urls_by_tier);
    } else {
        assert(urls_by_tier.take(t + 1).drop_last() == urls_by_tier.take(t));
        lemma_upstream_count(urls_by_tier, t + 1);
    }
}

/// The index space: upstreams are numbered from 0 in config order, so the
/// `j`-th upstream of tier `t` comes after all upstreams of the tiers before
/// `t` and after the `j` before it in its own tier, and nothing is known of it.
pub proof fn law_index_space(urls_by_tier: Seq<Seq<String>>, t: int, j: int)
    requires
        0 <= t < urls_by_tier.len(),
        0 <= j < urls_by_tier[t].len(),
    ensures
        cold_upstreams(urls_by_tier).len() == upstream_count(urls_by_tier),
        upstream_count(urls_by_tier.take(t)) + j < upstream_count(urls_by_tier),
        cold_upstreams(urls_by_tier)[upstream_count(urls_by_tier.take(t)) + j]
            == UpstreamSnapshot::cold(
            (upstream_count(urls_by_tier.take(t)) + j) as usize,
            urls_by_tier[t][j],
            t as usize,
        ),
    decreases urls_by_tier.len(),
{
    let rest = urls_by_tier.drop_last();
    lemma_cold_upstreams_len(urls_by_tier);
    lemma_cold_upstreams_len(rest);
    if t == rest.len() {
        assert(urls_by_tier.take(t) == rest);
    } else {
        law_index_space(rest, t, j);
        assert(rest.take(t) == urls_by_tier.take(t));
    }
}

pub proof fn lemma_cold_upstreams_len(urls_by_tier: Seq<Seq<String>>)
    ensures
        cold_upstreams(urls_by_tier).len() == upstream_count(urls_by_tier),
    decreases urls_by_tier.len(),
{
    if urls_by_tier.len() > 0 {
        lemma_cold_upstreams_len(urls_by_tier.drop_last());
    }
}

/// Every number below the count belongs to some tier.
pub proof fn lemma_place(urls_by_tier: Seq<Seq<String>>, i: int) -> (place: (int, int))
    requires
        0 <= i < upstream_count(urls_by_tier),
    ensures
        0 <= place.0 < urls_by_tier.len(),
        0 <= place.1 < urls_by_tier[place.0].len(),
        i == upstream_count(urls_by_tier.take(place.0)) + place.1,
    decreases urls_by_tier.len(),
{
    let rest = urls_by_tier.drop_last();
    let last = urls_by_tier.len() - 1;
    assert(urls_by_tier.take(last) == rest);
    if i < upstream_count(rest) {
        let place = lemma_place(rest, i);
        assert(rest.take(place.0) == urls_by_tier.take(place.0));
        place
    } else {
        (last, i - upstream_count(rest))
    }
}

/// A transport error marks an upstream down at once, and the next probe that
/// is answered brings it back; a failed one does not.
pub proof fn law_error_marks_down_probe_recovers(u: UpstreamSnapshot, ms: Sample)
    ensures
        u.with_error().healthy == Some(false),
        u.with_error().probed(Some(ms)).healthy == Some(true),
        u.with_error().probed(None).healthy == Some(false),
{
}

/// A failed probe adds no sample: it changes the health verdict and nothing
/// else.
pub proof fn law_failed_probe_adds_no_sample(u: UpstreamSnapshot)
    ensures
        u.probed(None) == (UpstreamSnapshot { healthy: Some(false), ..u }),
{
}

/// An average starts at its first sample, whichever measurement it is of.
pub proof fn law_first_sample_seeds(u: UpstreamSnapshot, sample: Sample)
    ensures
        u.probe_ms is None ==> u.probed(Some(sample)).probe_ms == Some(sample.newest),
        u.narinfo_ms is None ==> u.with_narinfo_hit(sample).narinfo_ms == Some(sample.newest),
        u.nar_mbps is None ==> u.with_throughput(sample).nar_mbps == Some(sample.newest),
{
}

/// Whatever is recorded of an upstream, it stays the same configured upstream,
/// and only a probe or an error touches its health.
pub proof fn law_identity_is_kept(u: UpstreamSnapshot, result: Option<Sample>, sample: Sample)
    ensures
        u.probed(result).same_upstream(u),
        u.with_error().same_upstream(u),
        u.with_narinfo_hit(sample).same_upstream(u),
        u.with_narinfo_hit(sample).healthy == u.healthy,
        u.with_throughput(sample).same_upstream(u),
        u.with_throughput(sample).healthy == u.healthy,
        u.with_hit().same_upstream(u),
        u.with_hit().healthy == u.healthy,
        u.with_miss().same_upstream(u),
        u.with_miss().healthy == u.healthy,
{
}

/// A remembered NAR path reads back as the upstream last set for it.
pub proof fn law_affinity_reads_back(registry: RegistryView, nar_path: Seq<char>, index: usize)
    ensures
        registry.with_affinity(nar_path, index).remembered(nar_path) == Some(index),
{
}

/// Remembering one path leaves every other as it was, unless the map was full:
/// then it is the only one left.
pub proof fn law_affinity_is_bounded(
    registry: RegistryView,
    nar_path: Seq<char>,
    index: usize,
    other: Seq<char>,
)
    requires
        registry.wf(),
        other != nar_path,
    ensures
        registry.with_affinity(nar_path, index).wf(),
        registry.affinity.len() < AFFINITY_CAP ==> registry.with_affinity(
            nar_path,
            index,
        ).remembered(other) == registry.remembered(other),
        registry.affinity.len() == AFFINITY_CAP ==> {
            &&& registry.with_affinity(nar_path, index).affinity.len() == 1
            &&& registry.with_affinity(nar_path, index).remembered(other) is None
        },
{
}

/// Whether nothing changed but what is held of upstream `index`.
pub open spec fn only_upstream_changed(
    before: RegistryView,
    after: RegistryView,
    index: int,
) -> bool {
    &&& after.affinity == before.affinity
    &&& after.upstreams.len() == before.upstreams.len()
    &&& forall|i: int|
        0 <= i < before.upstreams.len() && i != index ==> #[trigger] after.upstreams[i]
            == before.upstreams[i]
}

/// Whether `after` is the moving average `before` with one sample more: its first
/// sample if it had none, the weighted mean otherwise.
pub open spec fn takes_sample(
    before: Option<Measure>,
    after: Option<Measure>,
    sample: Sample,
) -> bool {
    &&& before is None ==> after == Some(sample.newest)
    &&& before is Some ==> after == Some(sample.blended)
}

/// An average starts at its first sample and is the weighted mean after that.
pub proof fn law_average_takes_sample(prev: Option<Measure>, sample: Sample, m: Measure)
    requires
        call_ensures(ewma, (prev, sample), m),
    ensures
        takes_sample(prev, Some(m), sample),
{
}

/// An answered probe marks an upstream up and adds a probe latency; what traffic
/// taught of it, latency, throughput and counters, is what it was, and so is
/// everything else.
pub proof fn law_answered_probe_touches_health_and_probe_latency(
    registry: &mut Registry,
    index: usize,
    ms: Sample,
)
    requires
        index < old(registry)@.upstreams.len(),
        call_ensures(Registry::record_probe, (registry, index, Some(ms)), ()),
    ensures
        ({
            let before = old(registry)@.upstreams[index as int];
            let after = final(registry)@.upstreams[index as int];
            &&& after.healthy == Some(true)
            &&& takes_sample(before.probe_ms, after.probe_ms, ms)
            &&& after.index == before.index
            &&& after.url == before.url
            &&& after.tier == before.tier
            &&& after.narinfo_ms == before.narinfo_ms
            &&& after.nar_mbps == before.nar_mbps
            &&& after.hits == before.hits
            &&& after.misses == before.misses
            &&& after.errors == before.errors
        }),
        only_upstream_changed(old(registry)@, final(registry)@, index as int),
{
}

/// A failed probe marks an upstream down and changes nothing else.
pub proof fn law_failed_probe_touches_health_only(registry: &mut Registry, index: usize)
    requires
        index < old(registry)@.upstreams.len(),
        call_ensures(Registry::record_probe, (registry, index, None), ()),
    ensures
        ({
            let before = old(registry)@.upstreams[index as int];
            let after = final(registry)@.upstreams[index as int];
            &&& after.healthy == Some(false)
            &&& after.index == before.index
            &&& after.url == before.url
            &&& after.tier == before.tier
            &&& after.probe_ms == before.probe_ms
            &&& after.narinfo_ms == before.narinfo_ms
            &&& after.nar_mbps == before.nar_mbps
            &&& after.hits == before.hits
            &&& after.misses == before.misses
            &&& after.errors == before.errors
        }),
        only_upstream_changed(old(registry)@, final(registry)@, index as int),
{
}

/// A narinfo served counts as a hit and adds a narinfo latency, and changes
/// nothing else.
pub proof fn law_narinfo_hit_touches_hits_and_narinfo_latency(
    registry: &mut Registry,
    index: usize,
    ms: Sample,
)
    requires
        index < old(registry)@.upstreams.len(),
        old(registry)@.upstreams[index as int].hits < u64::MAX,
        call_ensures(Registry::record_narinfo_hit, (registry, index, ms), ()),
    ensures
        ({
            let before = old(registry)@.upstreams[index as int];
            let after = final(registry)@.upstreams[index as int];
            &&& after.hits == before.hits + 1
            &&& takes_sample(before.narinfo_ms, after.narinfo_ms, ms)
            &&& after.index == before.index
            &&& after.url == before.url
            &&& after.tier == before.tier
            &&& after.healthy == before.healthy
            &&& after.probe_ms == before.probe_ms
            &&& after.nar_mbps == before.nar_mbps
            &&& after.misses == before.misses
            &&& after.errors == before.errors
        }),
        only_upstream_changed(old(registry)@, final(registry)@, index as int),
{
}

/// A complete NAR transfer adds a throughput and changes nothing else.
pub proof fn law_throughput_touches_throughput_only(
    registry: &mut Registry,
    index: usize,
    mbps: Sample,
)
    requires
        index < old(registry)@.upstreams.len(),
        call_ensures(Registry::record_nar_throughput, (registry, index, mbps), ()),
    ensures
        ({
            let before = old(registry)@.upstreams[index as int];
            let after = final(registry)@.upstreams[index as int];
            &&& takes_sample(before.nar_mbps, after.nar_mbps, mbps)
            &&& after.index == before.index
            &&& after.url == before.url
            &&& after.tier == before.tier
            &&& after.healthy == before.healthy
            &&& after.probe_ms == before.probe_ms
            &&& after.narinfo_ms == before.narinfo_ms
            &&& after.hits == before.hits
            &&& after.misses == before.misses
            &&& after.errors == before.errors
        }),
        only_upstream_changed(old(registry)@, final(registry)@, index as int),
{
}

/// A NAR served counts as a hit and changes nothing else: no latency, no health.
pub proof fn law_hit_touches_hits_only(registry: &mut Registry, index: usize)
    requires
        index < old(registry)@.upstreams.len(),
        old(registry)@.upstreams[index as int].hits < u64::MAX,
        call_ensures(Registry::record_hit, (registry, index), ()),
    ensures
        ({
            let before = old(registry)@.upstreams[index as int];
            let after = final(registry)@.upstreams[index as int];
            &&& after.hits == before.hits + 1
            &&& after.index == before.index
            &&& after.url == before.url
            &&& after.tier == before.tier
            &&& after.healthy == before.healthy
            &&& after.probe_ms == before.probe_ms
            &&& after.narinfo_ms == before.narinfo_ms
            &&& after.nar_mbps == before.nar_mbps
            &&& after.misses == before.misses
            &&& after.errors == before.errors
        }),
        only_upstream_changed(old(registry)@, final(registry)@, index as int),
{
}

/// A miss is counted and changes nothing else: lacking a path is no fault.
pub proof fn law_miss_touches_misses_only(registry: &mut Registry, index: usize)
    requires
        index < old(registry)@.upstreams.len(),
        old(registry)@.upstreams[index as int].misses < u64::MAX,
        call_ensures(Registry::record_miss, (registry, index), ()),
    ensures
        ({
            let before = old(registry)@.upstreams[index as int];
            let after = final(registry)@.upstreams[index as int];
            &&& after.misses == before.misses + 1
            &&& after.index == before.index
            &&& after.url == before.url
            &&& after.tier == before.tier
            &&& after.healthy == before.healthy
            &&& after.probe_ms == before.probe_ms
            &&& after.narinfo_ms == before.narinfo_ms
            &&& after.nar_mbps == before.nar_mbps
            &&& after.hits == before.hits
            &&& after.errors == before.errors
        }),
        only_upstream_changed(old(registry)@, final(registry)@, index as int),
{
}

/// An error is counted and marks the upstream down, and changes nothing else: the
/// measurements stay for when it is back.
pub proof fn law_error_touches_errors_and_health(registry: &mut Registry, index: usize)
    requires
        index < old(registry)@.upstreams.len(),
        old(registry)@.upstreams[index as int].errors < u64::MAX,
        call_ensures(Registry::record_error, (registry, index), ()),
    ensures
        ({
            let before = old(registry)@.upstreams[index as int];
            let after = final(registry)@.upstreams[index as int];
            &&& after.errors == before.errors + 1
            &&& after.healthy == Some(false)
            &&& after.index == before.index
            &&& after.url == before.url
            &&& after.tier == before.tier
            &&& after.probe_ms == before.probe_ms
            &&& after.narinfo_ms == before.narinfo_ms
            &&& after.nar_mbps == before.nar_mbps
            &&& after.hits == before.hits
            &&& after.misses == before.misses
        }),
        only_upstream_changed(old(registry)@, final(registry)@, index as int),
{
}

/// Remembering a path: it is added to what is remembered, unless 4096 paths are;
/// then it is all that is remembered. The upstreams are as they were.
pub proof fn law_affinity_entries(registry: &mut Registry, nar_path: String, index: usize)
    requires
        call_ensures(Registry::set_affinity, (registry, nar_path, index), ()),
    ensures
        final(registry)@.upstreams == old(registry)@.upstreams,
        final(registry)@.affinity.contains_key(nar_path@),
        final(registry)@.affinity[nar_path@] == index,
        old(registry)@.affinity.len() < 4096 ==> forall|other: Seq<char>|
            other != nar_path@ ==> {
                &&& #[trigger] final(registry)@.affinity.contains_key(other)
                    <==> old(registry)@.affinity.contains_key(other)
                &&& final(registry)@.affinity[other] == old(registry)@.affinity[other]
            },
        old(registry)@.affinity.len() >= 4096 ==> forall|other: Seq<char>|
            other != nar_path@ ==> !#[trigger] final(registry)@.affinity.contains_key(other),
{
}

/// A path looked up is the upstream last remembered for it, and nothing if there
/// is none; and as many paths are reported as are remembered.
pub proof fn law_affinity_lookup(registry: &Registry, nar_path: &str, r: Option<usize>, n: usize)
    requires
        call_ensures(Registry::affinity, (registry, nar_path), r),
        call_ensures(Registry::affinity_len, (registry,), n),
    ensures
        r is Some <==> registry@.affinity.contains_key(nar_path@),
        r matches Some(index) ==> registry@.affinity[nar_path@] == index,
        n == registry@.affinity.len(),
{
}

/// All ways to read a registry agree.
pub proof fn law_reads_agree(
    registry: &Registry,
    index: usize,
    n: usize,
    u: &UpstreamSnapshot,
    all: Vec<UpstreamSnapshot>,
    url: String,
)
    requires
        index < registry@.upstreams.len(),
        call_ensures(Registry::len, (registry,), n),
        call_ensures(Registry::get, (registry, index), u),
        call_ensures(Registry::snapshot, (registry,), all),
        call_ensures(Registry::url, (registry, index), url),
    ensures
        all@.len() == n == registry@.upstreams.len(),
        all@[index as int] == *u,
        *u == registry@.upstreams[index as int],
        url == u.url,
{
}

/// Nothing is known of an upstream at first.
pub open spec fn unknown_yet(u: UpstreamSnapshot) -> bool {
    &&& u.healthy is None
    &&& u.probe_ms is None
    &&& u.narinfo_ms is None
    &&& u.nar_mbps is None
    &&& u.hits == 0
    &&& u.misses == 0
    &&& u.errors == 0
}

/// Cold upstreams are the URLs tier after tier, each with the number of its tier
/// and of its place in the whole.
pub proof fn law_cold_upstreams_are_the_urls(urls_by_tier: Seq<Seq<String>>)
    ensures
        cold_upstreams(urls_by_tier).map_values(|u: UpstreamSnapshot| u.url)
            == urls_by_tier.flatten(),
        cold_upstreams(urls_by_tier).map_values(|u: UpstreamSnapshot| u.tier) == urls_by_tier.map(
            |t: int, urls: Seq<String>| Seq::new(urls.len(), |j: int| t as usize),
        ).flatten(),
        forall|i: int|
            0 <= i < cold_upstreams(urls_by_tier).len() ==> {
                &&& (#[trigger] cold_upstreams(urls_by_tier)[i]).index == i as usize
                &&& unknown_yet(cold_upstreams(urls_by_tier)[i])
            },
    decreases urls_by_tier.len(),
{
    let shape = |t: int, urls: Seq<String>| Seq::new(urls.len(), |j: int| t as usize);
    let tiers = urls_by_tier.map(shape);
    let ups = cold_upstreams(urls_by_tier);
    urls_by_tier.lemma_flatten_and_flatten_alt_are_equivalent();
    tiers.lemma_flatten_and_flatten_alt_are_equivalent();
    if urls_by_tier.len() > 0 {
        let rest = urls_by_tier.drop_last();
        let before = cold_upstreams(rest);
        law_cold_upstreams_are_the_urls(rest);
        rest.lemma_flatten_and_flatten_alt_are_equivalent();
        rest.map(shape).lemma_flatten_and_flatten_alt_are_equivalent();
        assert(tiers.drop_last() == rest.map(shape));
        assert(ups.map_values(|u: UpstreamSnapshot| u.url) == before.map_values(
            |u: UpstreamSnapshot| u.url,
        ) + urls_by_tier.last());
        assert(ups.map_values(|u: UpstreamSnapshot| u.tier) == before.map_values(
            |u: UpstreamSnapshot| u.tier,
        ) + tiers.last());
        assert forall|i: int| 0 <= i < ups.len() implies (#[trigger] ups[i]).index == i as usize
            && unknown_yet(ups[i]) by {
            if i < before.len() {
                assert(ups[i] == before[i]);
            }
        }
    } else {
        assert(ups.map_values(|u: UpstreamSnapshot| u.url) == Seq::<String>::empty());
        assert(ups.map_values(|u: UpstreamSnapshot| u.tier) == Seq::<usize>::empty());
    }
}

/// A new registry holds the given URLs tier after tier, numbered from 0 in that
/// order, with nothing known of any and no path remembered.
pub proof fn law_new_registry_holds_the_urls(urls_by_tier: &[Vec<String>], r: Registry)
    requires
        call_ensures(Registry::new, (urls_by_tier,), r),
    ensures
        ({
            let urls = urls_by_tier@.map_values(|urls: Vec<String>| urls@);
            &&& r@.upstreams.map_values(|u: UpstreamSnapshot| u.url) == urls.flatten()
            &&& r@.upstreams.map_values(|u: UpstreamSnapshot| u.tier) == urls.map(
                |t: int, of_tier: Seq<String>| Seq::new(of_tier.len(), |j: int| t as usize),
            ).flatten()
        }),
        forall|i: int|
            0 <= i < r@.upstreams.len() ==> {
                &&& (#[trigger] r@.upstreams[i]).index == i
                &&& unknown_yet(r@.upstreams[i])
            },
        forall|path: Seq<char>| !#[trigger] r@.affinity.contains_key(path),
{
    let urls = urls_by_tier@.map_values(|urls: Vec<String>| urls@);
    assert(url_views(urls_by_tier@) == urls);
    law_cold_upstreams_are_the_urls(urls);
    assert forall|i: int| 0 <= i < r@.upstreams.len() implies (#[trigger] r@.upstreams[i]).index == i
        && unknown_yet(r@.upstreams[i]) by {
        assert(cold_upstreams(urls)[i].index == i as usize);
    }
}

/// A copy of what is known of an upstream is the same in every field.
pub proof fn law_copies_are_the_same(u: &UpstreamSnapshot, copy: UpstreamSnapshot)
    requires
        call_ensures(UpstreamSnapshot::clone, (u,), copy),
    ensures
        copy == *u,
{
}

} // verus!
