//! A local substituter proxy for Nix: the decisions behind one localhost
//! endpoint that routes each request to the best reachable upstream cache.
pub mod config;
pub mod fetch;
pub mod laws;
pub mod measure;
pub mod narinfo;
pub mod probe;
pub mod proxy;
pub mod select;
pub mod serve;
pub mod state;
pub mod text;

use crate::config::{Config, Tier, Upstream};
use crate::probe::Prober;
use crate::proxy::{listed, App, TierShape};
use crate::state::{
    cold_upstreams, law_index_space, lemma_cold_upstreams_len, lemma_place, lemma_upstream_count,
    upstream_count, url_views, Registry,
};
use vstd::prelude::*;

verus! {

/// The upstream URLs of each configured tier.
pub open spec fn config_urls(cfg: Config) -> Seq<Seq<String>> {
    cfg.tiers@.map_values(|tier: Tier| tier.upstreams@.map_values(|u: Upstream| u.url))
}

/// The indices of a tier: consecutive, from the number of upstreams in the
/// tiers before it.
pub open spec fn tier_indices(urls_by_tier: Seq<Seq<String>>, t: int) -> Seq<usize> {
    Seq::new(
        urls_by_tier[t].len(),
        |j: int| (upstream_count(urls_by_tier.take(t)) + j) as usize,
    )
}

/// Whether the running state is as assembled from a configuration.
pub open spec fn fresh(app: App, cfg: Config) -> bool {
    &&& app.registry@.upstreams == cold_upstreams(config_urls(cfg))
    &&& app.registry@.affinity == Map::<Seq<char>, usize>::empty()
    &&& app.tiers@.len() == cfg.tiers@.len()
    &&& forall|t: int|
        0 <= t < app.tiers@.len() ==> {
            &&& (#[trigger] app.tiers@[t]).strategy == cfg.tiers@[t].strategy
            &&& app.tiers@[t].indices@ == tier_indices(config_urls(cfg), t)
        }
}

/// The upstream URLs of each configured tier.
fn urls_of(cfg: &Config) -> (r: Vec<Vec<String>>)
    ensures
        url_views(r@) == config_urls(*cfg),
{
    let ghost urls = config_urls(*cfg);
    let mut r: Vec<Vec<String>> = Vec::new();
    let mut t: usize = 0;
    while t < cfg.tiers.len()
        invariant
            t <= cfg.tiers@.len(),
            urls == config_urls(*cfg),
            url_views(r@) == urls.take(t as int),
        decreases cfg.tiers@.len() - t,
    {
        let upstreams = &cfg.tiers[t].upstreams;
        let mut of_tier: Vec<String> = Vec::new();
        let mut j: usize = 0;
        while j < upstreams.len()
            invariant
                t < cfg.tiers@.len(),
                upstreams == &cfg.tiers@[t as int].upstreams,
                j <= upstreams@.len(),
                urls == config_urls(*cfg),
                of_tier@ == urls[t as int].take(j as int),
            decreases upstreams@.len() - j,
        {
            of_tier.push(upstreams[j].url.clone());
            assert(of_tier@ == urls[t as int].take(j + 1));
            j = j + 1;
        }
        assert(urls[t as int].take(j as int) == urls[t as int]);
        let ghost before = r@;
        r.push(of_tier);
        assert(url_views(r@) == url_views(before).push(urls[t as int]));
        assert(url_views(r@) == urls.take(t + 1));
        t = t + 1;
    }
    assert(urls.take(t as int) == urls);
    r
}

/// Consecutive numbering gives every upstream one place, in the tier it was
/// configured in.
proof fn lemma_numbered(app: App, urls_by_tier: Seq<Seq<String>>)
    requires
        app.registry@.upstreams == cold_upstreams(urls_by_tier),
        upstream_count(urls_by_tier) <= usize::MAX,
        urls_by_tier.len() <= usize::MAX,
        app.tiers@.len() == urls_by_tier.len(),
        forall|t: int|
            0 <= t < app.tiers@.len() ==> (#[trigger] app.tiers@[t]).indices@ == tier_indices(
                urls_by_tier,
                t,
            ),
    ensures
        app.tiers_registered(),
        app.numbered(),
{
    lemma_cold_upstreams_len(urls_by_tier);
    assert forall|t: int, j: int|
        #![trigger app.tiers@[t].indices@[j]]
        0 <= t < app.tiers@.len() && 0 <= j < app.tiers@[t].indices@.len() implies {
        &&& app.tiers@[t].indices@[j] == upstream_count(urls_by_tier.take(t)) + j
        &&& app.tiers@[t].indices@[j] < app.registry@.upstreams.len()
        &&& app.registry@.upstreams[app.tiers@[t].indices@[j] as int].tier == t
    } by {
        law_index_space(urls_by_tier, t, j);
    }
    assert forall|t1: int, j1: int, t2: int, j2: int|
        #![trigger app.tiers@[t1].indices@[j1], app.tiers@[t2].indices@[j2]]
        0 <= t1 < app.tiers@.len() && 0 <= j1 < app.tiers@[t1].indices@.len() && 0 <= t2
            < app.tiers@.len() && 0 <= j2 < app.tiers@[t2].indices@.len()
            && app.tiers@[t1].indices@[j1] == app.tiers@[t2].indices@[j2] implies t1 == t2 && j1
        == j2 by {
        let i = app.tiers@[t1].indices@[j1] as int;
        assert(app.registry@.upstreams[i].tier == t1);
        assert(app.registry@.upstreams[i].tier == t2);
    }
    assert forall|i: int| 0 <= i < app.registry@.upstreams.len() implies #[trigger] listed(
        app.tiers@,
        i,
    ) by {
        let place = lemma_place(urls_by_tier, i);
        assert(app.tiers@[place.0].indices@[place.1] == i);
    }
}

/// Assembles the running state from a configuration: every upstream numbered
/// and cold, and every tier with the indices of its upstreams.
pub fn build(cfg: &Config) -> (app: App)
    ensures
        app.wf(),
        fresh(app, *cfg),
        !app.prober.wants_pass(),
{
    let ghost urls = config_urls(*cfg);
    let urls_by_tier = urls_of(cfg);
    let registry = Registry::new(urls_by_tier.as_slice());
    let total: usize = registry.len();
    proof {
        lemma_cold_upstreams_len(urls);
    }
    let mut tiers: Vec<TierShape> = Vec::new();
    let mut next: usize = 0;
    let mut t: usize = 0;
    while t < cfg.tiers.len()
        invariant
            t <= cfg.tiers@.len(),
            urls == config_urls(*cfg),
            total == upstream_count(urls),
            next == upstream_count(urls.take(t as int)),
            tiers@.len() == t,
            forall|k: int|
                0 <= k < t ==> {
                    &&& (#[trigger] tiers@[k]).strategy == cfg.tiers@[k].strategy
                    &&& tiers@[k].indices@ == tier_indices(urls, k)
                },
            forall|k: int, j: int|
                #![trigger tiers@[k].indices@[j]]
                0 <= k < t && 0 <= j < tiers@[k].indices@.len() ==> tiers@[k].indices@[j] < total,
        decreases cfg.tiers@.len() - t,
    {
        let count: usize = cfg.tiers[t].upstreams.len();
        proof {
            lemma_upstream_count(urls, t as int);
            assert(urls[t as int].len() == count);
        }
        let mut indices: Vec<usize> = Vec::new();
        let mut j: usize = 0;
        while j < count
            invariant
                j <= count,
                next + count <= total,
                next == upstream_count(urls.take(t as int)),
                urls[t as int].len() == count,
                indices@ == tier_indices(urls, t as int).take(j as int),
                forall|k: int| 0 <= k < j ==> #[trigger] indices@[k] < total,
            decreases count - j,
        {
            indices.push(next + j);
            assert(indices@ == tier_indices(urls, t as int).take(j + 1));
            j = j + 1;
        }
        assert(tier_indices(urls, t as int).take(j as int) == tier_indices(urls, t as int));
        next = next + count;
        tiers.push(TierShape { strategy: cfg.tiers[t].strategy, indices });
        t = t + 1;
    }
    let app = App { registry, tiers, prober: Prober::new() };
    proof {
        lemma_numbered(app, urls);
    }
    app
}

} // verus!
