//! Active reachability probes: a timed `GET /nix-cache-info` per upstream, on
//! start, on an interval, and immediately after a request failure.
use crate::fetch::{answered, is_success, target_url, upstream_url, Outcome};
use crate::fetch::law_target_is_below_base;
use crate::state::{
    only_upstream_changed, takes_sample, Registry, RegistryView, Sample, UpstreamSnapshot,
};
use vstd::prelude::*;

verus! {

/// The one thing that can be asked of the probe loop: an early pass.
#[derive(Debug)]
pub struct Prober {
    wanted: bool,
}

impl Prober {
    /// Whether an early pass is wanted.
    pub closed spec fn wants_pass(&self) -> bool {
        self.wanted
    }

    /// Nothing asked for yet.
    pub fn new() -> (p: Prober)
        ensures
            !p.wants_pass(),
    {
        Prober { wanted: false }
    }

    /// Asks for an out-of-band probe pass; a pass already pending absorbs the
    /// kick.
    pub fn kick(&mut self)
        ensures
            final(self).wants_pass(),
            old(self).wants_pass() ==> *final(self) == *old(self),
    {
        self.wanted = true;
    }

    /// Whether an early pass is wanted.
    pub fn pending(&self) -> (r: bool)
        ensures
            r == self.wants_pass(),
    {
        self.wanted
    }

    /// Starts the pass that was asked for, if any: later kicks ask for another.
    pub fn take(&mut self) -> (r: bool)
        ensures
            r == old(self).wants_pass(),
            !final(self).wants_pass(),
    {
        let r = self.wanted;
        self.wanted = false;
        r
    }
}

/// One probe to make.
#[derive(Debug)]
pub struct Probe {
    pub index: usize,
    pub url: String,
}

/// What a probe pass has seen and how far it is.
pub struct ProbePassView {
    pub targets: Seq<UpstreamSnapshot>,
    pub probed: int,
}

/// One pass over every upstream, one after the other.
#[derive(Debug)]
pub struct ProbePass {
    targets: Vec<UpstreamSnapshot>,
    probed: usize,
}

impl View for ProbePass {
    type V = ProbePassView;

    closed spec fn view(&self) -> ProbePassView {
        ProbePassView { targets: self.targets@, probed: self.probed as int }
    }
}

/// What a probe brings: a sample from an upstream that answered, nothing from
/// one that did not.
pub open spec fn probe_result(outcome: Outcome, ms: Sample) -> Option<Sample> {
    if answered(outcome) {
        Some(ms)
    } else {
        None
    }
}

/// The verdict worth a log line: the new one, where it differs from what was
/// known when the pass began.
pub open spec fn flipped(known: Option<bool>, up: bool) -> Option<bool> {
    if known == Some(up) {
        None
    } else {
        Some(up)
    }
}

/// Begins a pass over every upstream.
pub fn probe_all(registry: &Registry) -> (pass: ProbePass)
    ensures
        pass@.targets == registry@.upstreams,
        pass@.probed == 0,
{
    ProbePass { targets: registry.snapshot(), probed: 0 }
}

impl ProbePass {
    /// The next probe to make, or nothing when the pass is over.
    pub fn next(&self) -> (r: Option<Probe>)
        ensures
            r is Some <==> self@.probed < self@.targets.len(),
            r matches Some(probe) ==> {
                &&& probe.index == self@.targets[self@.probed].index
                &&& probe.url@ == target_url(
                    self@.targets[self@.probed].url@,
                    "/nix-cache-info"@,
                )
            },
    {
        if self.probed < self.targets.len() {
            let u = &self.targets[self.probed];
            Some(Probe { index: u.index, url: upstream_url(&u.url, "/nix-cache-info") })
        } else {
            None
        }
    }

    /// Records the outcome of the probe just made and moves on. Reachable means
    /// a 2xx: a host that answers anything else is not a usable binary cache
    /// and counts as down. Returns the verdict if it flipped.
    pub fn settle(&mut self, registry: &mut Registry, outcome: Outcome, ms: Sample) -> (r: Option<
        bool,
    >)
        requires
            old(self)@.probed < old(self)@.targets.len(),
            old(self)@.targets[old(self)@.probed].index < old(registry)@.upstreams.len(),
        ensures
            final(self)@.targets == old(self)@.targets,
            final(self)@.probed == old(self)@.probed + 1,
            ({
                let u = old(self)@.targets[old(self)@.probed];
                &&& final(registry)@ == old(registry)@.with(
                    u.index as int,
                    old(registry)@.upstreams[u.index as int].probed(probe_result(outcome, ms)),
                )
                &&& r == flipped(u.healthy, answered(outcome))
            }),
            old(registry).wf() ==> final(registry).wf(),
    {
        assert(self.probed < self.targets.len());
        let up = is_success(outcome);
        let index: usize = self.targets[self.probed].index;
        let known = self.targets[self.probed].healthy;
        let result = if up {
            Some(ms)
        } else {
            None
        };
        registry.record_probe(index, result);
        self.probed = self.probed + 1;
        let same = match known {
            Some(was_up) => was_up == up,
            None => false,
        };
        if same {
            None
        } else {
            Some(up)
        }
    }
}

/// What a registry holds after the first `n` probes of a pass, given their
/// outcomes and samples.
pub open spec fn after_probes(
    registry: RegistryView,
    targets: Seq<UpstreamSnapshot>,
    outcomes: Seq<Outcome>,
    samples: Seq<Sample>,
    n: int,
) -> RegistryView
    decreases n,
{
    if n <= 0 {
        registry
    } else {
        let before = after_probes(registry, targets, outcomes, samples, n - 1);
        let index = targets[n - 1].index as int;
        before.with(
            index,
            before.upstreams[index].probed(probe_result(outcomes[n - 1], samples[n - 1])),
        )
    }
}

/// A pass settles health: each upstream probed is up exactly if its probe was
/// answered with a success, those not reached yet are as they were, and so are
/// counters, traffic averages and affinity.
pub proof fn law_pass_settles_health(
    registry: RegistryView,
    outcomes: Seq<Outcome>,
    samples: Seq<Sample>,
    n: int,
)
    requires
        registry.wf(),
        0 <= n <= registry.upstreams.len(),
        outcomes.len() >= n,
        samples.len() >= n,
    ensures
        ({
            let after = after_probes(registry, registry.upstreams, outcomes, samples, n);
            &&& after.wf()
            &&& after.affinity == registry.affinity
            &&& after.upstreams.len() == registry.upstreams.len()
            &&& forall|i: int|
                #![trigger after.upstreams[i]]
                0 <= i < registry.upstreams.len() ==> {
                    if i < n {
                        &&& after.upstreams[i] == registry.upstreams[i].probed(
                            probe_result(outcomes[i], samples[i]),
                        )
                        &&& after.upstreams[i].healthy == Some(answered(outcomes[i]))
                    } else {
                        after.upstreams[i] == registry.upstreams[i]
                    }
                }
        }),
    decreases n,
{
    if n > 0 {
        law_pass_settles_health(registry, outcomes, samples, n - 1);
        assert(registry.upstreams[n - 1].index == n - 1);
    }
}

/// No pass is wanted at first; a kick asks for one, and several ask for one still;
/// taking it tells whether it was wanted and leaves none wanted.
pub proof fn law_kicks_and_passes(
    fresh: Prober,
    kicked: &mut Prober,
    taken: &mut Prober,
    was_wanted: bool,
    p: &Prober,
    pending: bool,
)
    requires
        call_ensures(Prober::new, (), fresh),
        call_ensures(Prober::kick, (kicked,), ()),
        call_ensures(Prober::take, (taken,), was_wanted),
        call_ensures(Prober::pending, (p,), pending),
    ensures
        !fresh.wants_pass(),
        final(kicked).wants_pass(),
        was_wanted == old(taken).wants_pass(),
        !final(taken).wants_pass(),
        pending == p.wants_pass(),
{
}

/// A pass begins with what is known of every upstream, in their order, and none
/// probed yet.
pub proof fn law_pass_covers_every_upstream(registry: &Registry, pass: ProbePass)
    requires
        call_ensures(probe_all, (registry,), pass),
    ensures
        pass@.targets.len() == registry@.upstreams.len(),
        forall|i: int|
            0 <= i < registry@.upstreams.len() ==> #[trigger] pass@.targets[i]
                == registry@.upstreams[i],
        pass@.probed == 0,
{
}

/// The next probe goes to `/nix-cache-info` below the URL of the first upstream
/// that was not probed yet, and there is none once all were.
pub proof fn law_next_probe(
    pass: &ProbePass,
    r: Option<Probe>,
    stem: Seq<char>,
    slashes: Seq<char>,
)
    requires
        call_ensures(ProbePass::next, (pass,), r),
        pass@.probed < pass@.targets.len() ==> pass@.targets[pass@.probed].url@ == stem + slashes,
        forall|i: int| 0 <= i < slashes.len() ==> #[trigger] slashes[i] == '/',
        stem.len() > 0 ==> stem.last() != '/',
    ensures
        r is None <==> pass@.probed >= pass@.targets.len(),
        r matches Some(probe) ==> {
            &&& probe.index == pass@.targets[pass@.probed].index
            &&& probe.url@ == stem + "/nix-cache-info"@
        },
{
    if r is Some {
        law_target_is_below_base(
            pass@.targets[pass@.probed].url@,
            "/nix-cache-info"@,
            stem,
            slashes,
        );
    }
}

/// One probe: a status from 200 to 299 marks the upstream up and adds the probe
/// latency, anything else marks it down and adds none. Traffic averages and
/// counters are what they were, and so is every other upstream and every
/// remembered path. What is reported is the new verdict, where it is not the one
/// that the pass began with.
pub proof fn law_probe_settles_one_upstream(
    pass: &mut ProbePass,
    registry: &mut Registry,
    outcome: Outcome,
    ms: Sample,
    r: Option<bool>,
)
    requires
        old(pass)@.probed < old(pass)@.targets.len(),
        old(pass)@.targets[old(pass)@.probed].index < old(registry)@.upstreams.len(),
        call_ensures(ProbePass::settle, (pass, registry, outcome, ms), r),
    ensures
        final(pass)@.targets == old(pass)@.targets,
        final(pass)@.probed == old(pass)@.probed + 1,
        ({
            let target = old(pass)@.targets[old(pass)@.probed];
            let before = old(registry)@.upstreams[target.index as int];
            let after = final(registry)@.upstreams[target.index as int];
            let up = outcome matches Outcome::Status(code) && code >= 200 && code <= 299;
            &&& after.healthy == Some(up)
            &&& up ==> takes_sample(before.probe_ms, after.probe_ms, ms)
            &&& !up ==> after.probe_ms == before.probe_ms
            &&& after.index == before.index
            &&& after.url == before.url
            &&& after.tier == before.tier
            &&& after.narinfo_ms == before.narinfo_ms
            &&& after.nar_mbps == before.nar_mbps
            &&& after.hits == before.hits
            &&& after.misses == before.misses
            &&& after.errors == before.errors
            &&& only_upstream_changed(old(registry)@, final(registry)@, target.index as int)
            &&& target.healthy == Some(up) ==> r is None
            &&& target.healthy != Some(up) ==> r == Some(up)
        }),
{
}

/// A pass, field by field: after `n` probes the first `n` upstreams have a new
/// verdict, those that answered a new probe latency, and nothing else changed of
/// them; the others are as they were.
pub proof fn law_pass_keeps_what_traffic_taught(
    registry: RegistryView,
    outcomes: Seq<Outcome>,
    samples: Seq<Sample>,
    n: int,
    i: int,
)
    requires
        registry.wf(),
        0 <= n <= registry.upstreams.len(),
        outcomes.len() >= n,
        samples.len() >= n,
        0 <= i < registry.upstreams.len(),
    ensures
        ({
            let passed = after_probes(registry, registry.upstreams, outcomes, samples, n);
            let before = registry.upstreams[i];
            let after = passed.upstreams[i];
            let up = outcomes[i] matches Outcome::Status(code) && code >= 200 && code <= 299;
            &&& passed.affinity == registry.affinity
            &&& after.index == before.index
            &&& after.url == before.url
            &&& after.tier == before.tier
            &&& after.narinfo_ms == before.narinfo_ms
            &&& after.nar_mbps == before.nar_mbps
            &&& after.hits == before.hits
            &&& after.misses == before.misses
            &&& after.errors == before.errors
            &&& i < n ==> after.healthy == Some(up)
            &&& i < n && up ==> takes_sample(before.probe_ms, after.probe_ms, samples[i])
            &&& i < n && !up ==> after.probe_ms == before.probe_ms
            &&& i >= n ==> after == before
        }),
{
    law_pass_settles_health(registry, outcomes, samples, n);
}

} // verus!
