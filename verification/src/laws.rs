//! What holds across the parts: routing, planning, forwarding and recording
//! taken together.
use crate::config::{
    acceptable, config_matches, is_http, tier_acceptable, tier_files, tier_matches, upstream_files,
    upstream_matches, Config, ConfigFile, Strategy, Tier, Upstream,
};
use crate::fetch::{verdict_of, Outcome, Verdict};
use crate::narinfo::{law_named_nar_is_the_whole_path, named_nar, url_line_at};
use crate::proxy::{
    affinity_for, dispatch, exhausted_answer, finish_narinfo, forward, listed, moved_on, recorded,
    text_reply, tiers_now, App, DispatchView, Forward, ForwardView, Header, Method, Reply, TierShape,
};
use crate::select::{
    beats, config_order, distinct_indices, down, goes_first, latencies_are_numbers,
    law_affinity_goes_first, law_cold_start_follows_config_order, law_each_attempt_once,
    law_numbers_are_sortable, law_plan_membership, law_rank_within_tier, law_tier_order_is_absolute,
    marked_down, precedes, sortable, usable, DefaultEngine, Plan, RequestKind, SelectionEngine,
    SelectionInput,
};
use crate::state::{
    cold_upstreams, law_cold_upstreams_are_the_urls, law_index_space, lemma_cold_upstreams_len,
    lemma_upstream_count, unknown_yet, upstream_count, RegistryView, Sample, UpstreamSnapshot,
};
use crate::text::{is_slash, is_white_space, lemma_without_leading_slashes, without_leading_slashes};
use crate::{build, config_urls, fresh, tier_indices};
use vstd::prelude::*;

verus! {

/// The proxy is read-only: only `GET` and `HEAD` are served, and everything else
/// is refused whatever the path.
pub proof fn law_read_only(path: Seq<char>)
    ensures
        dispatch(Method::Other, path) == DispatchView::Answer(
            text_reply(405, "sito is read-only"@),
        ),
{
}

/// A `HEAD` is forwarded as a `HEAD`, to the upstreams that a `GET` would go to,
/// and answered like a `GET` where nothing is forwarded.
pub proof fn law_head_is_forwarded_as_head(path: Seq<char>)
    ensures
        dispatch(Method::Head, path) == (match dispatch(Method::Get, path) {
            DispatchView::Forward { kind, head } => DispatchView::Forward { kind, head: true },
            other => other,
        }),
        dispatch(Method::Get, path) matches DispatchView::Forward { head, .. } ==> !head,
{
}

/// Upstreams are asked for narinfos and NARs only, never for the proxy's own
/// endpoints.
pub proof fn law_only_cache_paths_are_forwarded(method: Method, path: Seq<char>)
    ensures
        dispatch(method, path) is Forward <==> {
            &&& method != Method::Other
            &&& path != "/nix-cache-info"@
            &&& path != "/status"@
            &&& ".narinfo"@.is_suffix_of(path) || "/nar/"@.is_prefix_of(path)
        },
{
}

/// Each upstream stands in the tiers once, under its own index.
pub proof fn law_tiers_are_distinct(app: App)
    requires
        app.wf(),
    ensures
        distinct_indices(tiers_now(app.tiers@, app.registry@.upstreams)),
{
    let tiers = tiers_now(app.tiers@, app.registry@.upstreams);
    assert forall|t1: int, j1: int, t2: int, j2: int|
        #![trigger tiers[t1][j1], tiers[t2][j2]]
        0 <= t1 < tiers.len() && 0 <= j1 < tiers[t1].len() && 0 <= t2 < tiers.len() && 0 <= j2
            < tiers[t2].len() && tiers[t1][j1].index == tiers[t2][j2].index implies t1 == t2 && j1
        == j2 by {
        let a = app.tiers@[t1].indices@[j1];
        let b = app.tiers@[t2].indices@[j2];
        assert(app.registry@.upstreams[a as int].index == a);
        assert(app.registry@.upstreams[b as int].index == b);
    }
}

/// Where upstream `i` stands in the tiers.
proof fn lemma_standing(app: App, i: int) -> (place: (int, int))
    requires
        app.wf(),
        0 <= i < app.registry@.upstreams.len(),
    ensures
        ({
            let tiers = tiers_now(app.tiers@, app.registry@.upstreams);
            let (t, j) = place;
            &&& 0 <= t < tiers.len()
            &&& 0 <= j < tiers[t].len()
            &&& tiers[t][j] == app.registry@.upstreams[i]
            &&& app.tiers@[t].indices@[j] == i
            &&& app.registry@.upstreams[i].tier == t
            &&& app.registry@.upstreams[i].index == i
        }),
{
    assert(listed(app.tiers@, i));
    let (t, j) = choose|t: int, j: int|
        #![trigger app.tiers@[t].indices@[j]]
        0 <= t < app.tiers@.len() && 0 <= j < app.tiers@[t].indices@.len()
            && app.tiers@[t].indices@[j] == i;
    assert(app.registry@.upstreams[i].index == i);
    (t, j)
}

/// Health as the tiers show it is health as the registry has it.
proof fn lemma_usable_is_not_down(app: App, index: usize)
    requires
        app.wf(),
    ensures
        ({
            let ups = app.registry@.upstreams;
            let tiers = tiers_now(app.tiers@, ups);
            &&& usable(tiers, index) <==> index < ups.len() && !down(ups[index as int])
            &&& marked_down(tiers, index) <==> index < ups.len() && down(ups[index as int])
        }),
{
    let ups = app.registry@.upstreams;
    let tiers = tiers_now(app.tiers@, ups);
    assert forall|t: int, j: int|
        #![trigger tiers[t][j]]
        0 <= t < tiers.len() && 0 <= j < tiers[t].len() && tiers[t][j].index == index implies index
        < ups.len() && tiers[t][j] == ups[index as int] by {
        let i = app.tiers@[t].indices@[j];
        assert(ups[i as int].index == i);
    }
    if index < ups.len() {
        let (t, j) = lemma_standing(app, index as int);
        assert(tiers[t][j].index == index);
    }
}

/// The built-in rules see a request as it is described to them: whatever
/// [`DefaultEngine`] answers is the plan that the laws here speak of.
pub proof fn law_built_in_plan(
    app: App,
    engine: DefaultEngine,
    kind: RequestKind,
    path: Seq<char>,
    input: SelectionInput,
    plan: Plan,
)
    requires
        app.describes(kind, path, input),
        call_ensures(DefaultEngine::plan, (&engine, &input), plan),
    ensures
        plan.attempts@ == app.default_plan(kind, path),
{
}

/// A plan holds exactly the upstreams that are not marked down, each once.
pub proof fn law_plan_is_the_reachable_upstreams(app: App, kind: RequestKind, path: Seq<char>)
    requires
        app.wf(),
    ensures
        app.default_plan(kind, path).no_duplicates(),
        forall|index: usize| #[trigger]
            app.default_plan(kind, path).contains(index) <==> index
                < app.registry@.upstreams.len() && !down(app.registry@.upstreams[index as int]),
        forall|i: int|
            0 <= i < app.default_plan(kind, path).len() ==> #[trigger] app.default_plan(
                kind,
                path,
            )[i] < app.registry@.upstreams.len(),
{
    let affinity = affinity_for(app.registry@, kind, path);
    let tiers = tiers_now(app.tiers@, app.registry@.upstreams);
    let plan = app.default_plan(kind, path);
    law_each_attempt_once(affinity, tiers);
    assert forall|index: usize| #[trigger] plan.contains(index) <==> index
        < app.registry@.upstreams.len() && !down(app.registry@.upstreams[index as int]) by {
        law_plan_membership(affinity, tiers, index);
        lemma_usable_is_not_down(app, index);
        if affinity == Some(index) {
            assert(app.registry@.affinity.contains_key(without_leading_slashes(path)));
        }
    }
    assert forall|i: int| 0 <= i < plan.len() implies #[trigger] plan[i]
        < app.registry@.upstreams.len() by {
        assert(plan.contains(plan[i]));
    }
}

/// Nobody is asked exactly when every upstream is marked down.
pub proof fn law_no_attempt_when_all_are_down(app: App, kind: RequestKind, path: Seq<char>)
    requires
        app.wf(),
    ensures
        app.default_plan(kind, path).len() == 0 <==> forall|i: int|
            0 <= i < app.registry@.upstreams.len() ==> down(#[trigger] app.registry@.upstreams[i]),
{
    let ups = app.registry@.upstreams;
    let plan = app.default_plan(kind, path);
    law_plan_is_the_reachable_upstreams(app, kind, path);
    if plan.len() == 0 {
        assert forall|i: int| 0 <= i < ups.len() implies down(#[trigger] ups[i]) by {
            assert(ups[i].index == i);
            assert(!plan.contains(ups[i].index));
        }
    } else {
        assert(plan.contains(plan[0]));
        assert(!down(ups[plan[0] as int]));
    }
}

/// A lower tier is always tried first, however the speeds measure. Only the
/// upstream remembered for the path may jump ahead.
pub proof fn law_lower_tier_goes_first(
    app: App,
    kind: RequestKind,
    path: Seq<char>,
    a: usize,
    b: usize,
)
    requires
        app.wf(),
        a < app.registry@.upstreams.len(),
        b < app.registry@.upstreams.len(),
        app.registry@.upstreams[a as int].tier < app.registry@.upstreams[b as int].tier,
        !down(app.registry@.upstreams[a as int]),
        !down(app.registry@.upstreams[b as int]),
        affinity_for(app.registry@, kind, path) != Some(b),
    ensures
        precedes(app.default_plan(kind, path), a, b),
{
    let (t1, j1) = lemma_standing(app, a as int);
    let (t2, j2) = lemma_standing(app, b as int);
    law_tiers_are_distinct(app);
    law_tier_order_is_absolute(
        affinity_for(app.registry@, kind, path),
        tiers_now(app.tiers@, app.registry@.upstreams),
        t1,
        j1,
        t2,
        j2,
    );
}

/// Within a tier that can be sorted the better measured upstream goes first, and
/// config order decides between equals. Only the upstream remembered for the
/// path may jump ahead.
pub proof fn law_better_measured_goes_first(
    app: App,
    kind: RequestKind,
    path: Seq<char>,
    a: usize,
    b: usize,
)
    requires
        app.wf(),
        a < app.registry@.upstreams.len(),
        b < app.registry@.upstreams.len(),
        app.registry@.upstreams[a as int].tier == app.registry@.upstreams[b as int].tier,
        sortable(
            tiers_now(
                app.tiers@,
                app.registry@.upstreams,
            )[app.registry@.upstreams[a as int].tier as int],
        ),
        ({
            let u = app.registry@.upstreams[a as int];
            let v = app.registry@.upstreams[b as int];
            beats(u, v) || (!beats(v, u) && a < b)
        }),
        !down(app.registry@.upstreams[a as int]),
        !down(app.registry@.upstreams[b as int]),
        affinity_for(app.registry@, kind, path) != Some(b),
    ensures
        precedes(app.default_plan(kind, path), a, b),
{
    let tiers = tiers_now(app.tiers@, app.registry@.upstreams);
    let (t, p) = lemma_standing(app, a as int);
    let (u, q) = lemma_standing(app, b as int);
    law_tiers_are_distinct(app);
    if q < p {
        assert(app.tiers@[t].indices@[q] < app.tiers@[t].indices@[p]);
    }
    law_rank_within_tier(affinity_for(app.registry@, kind, path), tiers, t, p, q);
}

/// A NAR follows its narinfo: once a narinfo body was relayed from an upstream,
/// the request for the NAR path that it names tries that upstream first, unless
/// it has been marked down. (A named path with a leading slash of its own is
/// remembered with it, and no request finds it.)
pub proof fn law_nar_follows_narinfo(before: RegistryView, after: App, index: usize, body: Seq<u8>)
    requires
        after.wf(),
        named_nar(body) is Some,
        named_nar(body)->0.len() > 0 ==> named_nar(body)->0[0] != '/',
        after.registry@.affinity == before.with_affinity(named_nar(body)->0, index).affinity,
        index < after.registry@.upstreams.len(),
        !down(after.registry@.upstreams[index as int]),
    ensures
        ({
            let plan = after.default_plan(RequestKind::Nar, seq!['/'] + named_nar(body)->0);
            plan.len() > 0 && plan[0] == index
        }),
{
    let nar_path = named_nar(body)->0;
    let path = seq!['/'] + nar_path;
    let p = |c: char| is_slash(c);
    assert(path.drop_first() == nar_path);
    assert(p('/'));
    if nar_path.len() > 0 {
        assert(!p(nar_path[0]));
    }
    reveal_with_fuel(crate::text::drop_leading, 2);
    assert(without_leading_slashes(path) == nar_path);
    lemma_usable_is_not_down(after, index);
    law_affinity_goes_first(index, tiers_now(after.tiers@, after.registry@.upstreams));
}

/// An attempt that ends in an error takes its upstream out of every plan until
/// a probe is answered, which brings it back.
pub proof fn law_error_takes_upstream_out(
    before: App,
    after: App,
    recovered: App,
    index: usize,
    kind: RequestKind,
    outcome: Outcome,
    sample: Sample,
    later: RequestKind,
    path: Seq<char>,
)
    requires
        verdict_of(outcome) == Verdict::Error,
        index < before.registry@.upstreams.len(),
        after.wf(),
        after.registry@ == before.registry@.with(
            index as int,
            recorded(before.registry@.upstreams[index as int], kind, outcome, sample),
        ),
        recovered.wf(),
        recovered.registry@ == after.registry@.with(
            index as int,
            after.registry@.upstreams[index as int].probed(Some(sample)),
        ),
    ensures
        !after.default_plan(later, path).contains(index),
        recovered.default_plan(later, path).contains(index),
{
    law_plan_is_the_reachable_upstreams(after, later, path);
    law_plan_is_the_reachable_upstreams(recovered, later, path);
}

/// Every attempt counts once: exactly one of the three counters of its upstream
/// grows, by one.
pub proof fn law_one_count_per_attempt(
    u: UpstreamSnapshot,
    kind: RequestKind,
    outcome: Outcome,
    sample: Sample,
)
    requires
        u.countable(),
    ensures
        ({
            let after = recorded(u, kind, outcome, sample);
            &&& after.hits == u.hits + (if verdict_of(outcome) == Verdict::Hit {
                1int
            } else {
                0
            })
            &&& after.misses == u.misses + (if verdict_of(outcome) == Verdict::Miss {
                1int
            } else {
                0
            })
            &&& after.errors == u.errors + (if verdict_of(outcome) == Verdict::Error {
                1int
            } else {
                0
            })
            &&& after.same_upstream(u)
        }),
{
}

/// A forwarded request and the registry after `n` attempts, given their
/// outcomes and samples.
pub open spec fn after_attempts(
    walk: ForwardView,
    registry: RegistryView,
    outcomes: Seq<Outcome>,
    samples: Seq<Sample>,
    n: int,
) -> (ForwardView, RegistryView)
    decreases n,
{
    if n <= 0 {
        (walk, registry)
    } else {
        let (w, r) = after_attempts(walk, registry, outcomes, samples, n - 1);
        let index = w.attempts[w.tried] as int;
        (
            moved_on(w, outcomes[n - 1]),
            r.with(index, recorded(r.upstreams[index], w.kind, outcomes[n - 1], samples[n - 1])),
        )
    }
}

/// What the first `n` attempts of a plan leave behind: each of their upstreams
/// with its own outcome recorded, every other upstream and the affinity map as
/// they were.
pub open spec fn attempts_recorded(
    walk: ForwardView,
    before: RegistryView,
    after: RegistryView,
    outcomes: Seq<Outcome>,
    samples: Seq<Sample>,
    n: int,
) -> bool {
    &&& after.affinity == before.affinity
    &&& after.upstreams.len() == before.upstreams.len()
    &&& forall|k: int|
        #![trigger walk.attempts[k]]
        0 <= k < n ==> after.upstreams[walk.attempts[k] as int] == recorded(
            before.upstreams[walk.attempts[k] as int],
            walk.kind,
            outcomes[k],
            samples[k],
        )
    &&& forall|i: int|
        #![trigger after.upstreams[i]]
        0 <= i < before.upstreams.len() && (forall|k: int|
            0 <= k < n ==> #[trigger] walk.attempts[k] != i) ==> after.upstreams[i]
            == before.upstreams[i]
}

/// Attempts are made in plan order as long as none hits.
pub proof fn law_misses_walk_the_plan(
    walk: ForwardView,
    registry: RegistryView,
    outcomes: Seq<Outcome>,
    samples: Seq<Sample>,
    n: int,
)
    requires
        walk.tried == 0,
        walk.attempts.no_duplicates(),
        forall|k: int|
            0 <= k < walk.attempts.len() ==> #[trigger] walk.attempts[k]
                < registry.upstreams.len(),
        0 <= n <= walk.attempts.len(),
        forall|k: int| 0 <= k < n ==> verdict_of(#[trigger] outcomes[k]) != Verdict::Hit,
    ensures
        ({
            let (w, r) = after_attempts(walk, registry, outcomes, samples, n);
            &&& w == (ForwardView { tried: n, ..walk })
            &&& attempts_recorded(walk, registry, r, outcomes, samples, n)
        }),
    decreases n,
{
    if n > 0 {
        law_misses_walk_the_plan(walk, registry, outcomes, samples, n - 1);
        let (w, r) = after_attempts(walk, registry, outcomes, samples, n - 1);
        lemma_one_more_recorded(walk, registry, r, outcomes, samples, n - 1);
    }
}

proof fn lemma_one_more_recorded(
    walk: ForwardView,
    before: RegistryView,
    mid: RegistryView,
    outcomes: Seq<Outcome>,
    samples: Seq<Sample>,
    n: int,
)
    requires
        walk.attempts.no_duplicates(),
        0 <= n < walk.attempts.len(),
        forall|k: int|
            0 <= k < walk.attempts.len() ==> #[trigger] walk.attempts[k] < before.upstreams.len(),
        attempts_recorded(walk, before, mid, outcomes, samples, n),
    ensures
        ({
            let index = walk.attempts[n] as int;
            attempts_recorded(
                walk,
                before,
                mid.with(
                    index,
                    recorded(mid.upstreams[index], walk.kind, outcomes[n], samples[n]),
                ),
                outcomes,
                samples,
                n + 1,
            )
        }),
{
    let index = walk.attempts[n] as int;
    assert(forall|k: int| 0 <= k < n ==> #[trigger] walk.attempts[k] != index);
    assert(mid.upstreams[index] == before.upstreams[index]);
    let after = mid.with(
        index,
        recorded(mid.upstreams[index], walk.kind, outcomes[n], samples[n]),
    );
    assert forall|i: int|
        #![trigger after.upstreams[i]]
        0 <= i < before.upstreams.len() && (forall|k: int|
            0 <= k < n + 1 ==> #[trigger] walk.attempts[k] != i) implies after.upstreams[i]
        == before.upstreams[i] by {
        assert(walk.attempts[n] != i);
        assert(mid.upstreams[i] == before.upstreams[i]);
    }
}

/// The first hit wins: when the attempts before it missed or failed, the
/// request rests at the upstream that hit, which is the one to relay from, and
/// no upstream after it was asked.
pub proof fn law_first_hit_wins(
    walk: ForwardView,
    registry: RegistryView,
    outcomes: Seq<Outcome>,
    samples: Seq<Sample>,
    n: int,
)
    requires
        walk.tried == 0,
        walk.attempts.no_duplicates(),
        forall|k: int|
            0 <= k < walk.attempts.len() ==> #[trigger] walk.attempts[k]
                < registry.upstreams.len(),
        0 <= n < walk.attempts.len(),
        forall|k: int| 0 <= k < n ==> verdict_of(#[trigger] outcomes[k]) != Verdict::Hit,
        verdict_of(outcomes[n]) == Verdict::Hit,
    ensures
        ({
            let (w, r) = after_attempts(walk, registry, outcomes, samples, n + 1);
            &&& w == (ForwardView { tried: n, ..walk })
            &&& attempts_recorded(walk, registry, r, outcomes, samples, n + 1)
        }),
{
    law_misses_walk_the_plan(walk, registry, outcomes, samples, n);
    let (w, r) = after_attempts(walk, registry, outcomes, samples, n);
    lemma_one_more_recorded(walk, registry, r, outcomes, samples, n);
}

/// A request that nobody can serve is answered 404, and no other is: after any
/// number of attempts that missed or failed the answer is there exactly if the
/// plan is exhausted, so at once if it was empty, and a hit is never answered so.
pub proof fn law_exhausted_plan_is_not_found(
    walk: ForwardView,
    registry: RegistryView,
    outcomes: Seq<Outcome>,
    samples: Seq<Sample>,
    n: int,
)
    requires
        walk.tried == 0,
        walk.attempts.no_duplicates(),
        forall|k: int|
            0 <= k < walk.attempts.len() ==> #[trigger] walk.attempts[k]
                < registry.upstreams.len(),
        0 <= n <= walk.attempts.len(),
        forall|k: int| 0 <= k < n ==> verdict_of(#[trigger] outcomes[k]) != Verdict::Hit,
    ensures
        exhausted_answer(after_attempts(walk, registry, outcomes, samples, n).0) == (if n
            == walk.attempts.len() {
            Some(text_reply(404, "no upstream has this path"@))
        } else {
            None
        }),
        n < walk.attempts.len() && verdict_of(outcomes[n]) == Verdict::Hit ==> exhausted_answer(
            after_attempts(walk, registry, outcomes, samples, n + 1).0,
        ) is None,
{
    law_misses_walk_the_plan(walk, registry, outcomes, samples, n);
    if n < walk.attempts.len() && verdict_of(outcomes[n]) == Verdict::Hit {
        law_first_hit_wins(walk, registry, outcomes, samples, n);
    }
}

/// An accepted configuration has something to serve from and nothing that
/// cannot be served: at least one upstream, every URL http or https, and every
/// tier sequential.
pub proof fn law_accepted_config_is_serviceable(cfg: Config, file: ConfigFile)
    requires
        config_matches(cfg, file),
        acceptable(file),
    ensures
        exists|t: int|
            0 <= t < cfg.tiers@.len() && (#[trigger] cfg.tiers@[t]).upstreams@.len() > 0,
        forall|t: int|
            0 <= t < cfg.tiers@.len() ==> (#[trigger] cfg.tiers@[t]).strategy
                == Strategy::Sequential,
        forall|t: int, j: int|
            #![trigger cfg.tiers@[t].upstreams@[j]]
            0 <= t < cfg.tiers@.len() && 0 <= j < cfg.tiers@[t].upstreams@.len() ==> is_http(
                cfg.tiers@[t].upstreams@[j].url@,
            ),
{
    let files = tier_files(file);
    let t = choose|t: int| 0 <= t < files.len() && upstream_files(#[trigger] files[t]).len() != 0;
    assert(tier_matches(cfg.tiers@[t], files[t]));
    assert forall|t: int| 0 <= t < cfg.tiers@.len() implies (#[trigger] cfg.tiers@[t]).strategy
        == Strategy::Sequential by {
        assert(tier_matches(cfg.tiers@[t], files[t]));
        assert(tier_acceptable(files[t]));
    }
    assert forall|t: int, j: int|
        #![trigger cfg.tiers@[t].upstreams@[j]]
        0 <= t < cfg.tiers@.len() && 0 <= j < cfg.tiers@[t].upstreams@.len() implies is_http(
        cfg.tiers@[t].upstreams@[j].url@,
    ) by {
        assert(tier_matches(cfg.tiers@[t], files[t]));
        assert(tier_acceptable(files[t]));
        assert(upstream_matches(cfg.tiers@[t].upstreams@[j], upstream_files(files[t])[j]));
    }
}

/// Recording anything of an upstream keeps the whole consistent.
pub proof fn law_recording_keeps_consistency(
    before: App,
    after: App,
    index: int,
    u: UpstreamSnapshot,
)
    requires
        before.wf(),
        0 <= index < before.registry@.upstreams.len(),
        u.same_upstream(before.registry@.upstreams[index]),
        after.registry@ == before.registry@.with(index, u),
        after.tiers == before.tiers,
    ensures
        after.wf(),
{
}

/// Fresh tiers list the numbers from 0 on.
proof fn lemma_fresh_order(app: App, cfg: Config, t: int)
    requires
        fresh(app, cfg),
        app.wf(),
        0 <= t <= app.tiers@.len(),
    ensures
        config_order(tiers_now(app.tiers@, app.registry@.upstreams).take(t)) == Seq::new(
            upstream_count(config_urls(cfg).take(t)),
            |i: int| i as usize,
        ),
    decreases t,
{
    let urls = config_urls(cfg);
    let tiers = tiers_now(app.tiers@, app.registry@.upstreams);
    if t > 0 {
        lemma_fresh_order(app, cfg, t - 1);
        lemma_upstream_count(urls, t - 1);
        let n = upstream_count(urls.take(t - 1));
        let shown = tiers[t - 1].map_values(|u: UpstreamSnapshot| u.index);
        assert(app.tiers@[t - 1].indices@ == tier_indices(urls, t - 1));
        assert forall|j: int| 0 <= j < shown.len() implies shown[j] == (n + j) as usize by {
            let index = app.tiers@[t - 1].indices@[j];
            assert(app.registry@.upstreams[index as int].index == index);
        }
        assert(tiers.take(t).drop_last() == tiers.take(t - 1));
        assert(tiers.take(t).last() == tiers[t - 1]);
        assert(config_order(tiers.take(t)) == config_order(tiers.take(t - 1)) + shown);
    } else {
        assert(tiers.take(0) == Seq::<Seq<UpstreamSnapshot>>::empty());
        assert(urls.take(0) == Seq::<Seq<String>>::empty());
    }
}

/// A cold start follows config order: right after assembly, every request would
/// try all upstreams as they are numbered.
pub proof fn law_cold_start_is_config_order(
    app: App,
    cfg: Config,
    kind: RequestKind,
    path: Seq<char>,
)
    requires
        app.wf(),
        fresh(app, cfg),
    ensures
        app.default_plan(kind, path) == Seq::new(
            app.registry@.upstreams.len(),
            |i: int| i as usize,
        ),
{
    let urls = config_urls(cfg);
    let ups = app.registry@.upstreams;
    let tiers = tiers_now(app.tiers@, ups);
    lemma_cold_upstreams_len(urls);
    assert forall|t: int, j: int|
        #![trigger tiers[t][j]]
        0 <= t < tiers.len() && 0 <= j < tiers[t].len() implies {
        &&& tiers[t][j].healthy is None
        &&& tiers[t][j].narinfo_ms is None
        &&& tiers[t][j].probe_ms is None
    } by {
        assert(app.tiers@[t].indices@[j] == tier_indices(urls, t)[j]);
        law_index_space(urls, t, j);
    }
    law_tiers_are_distinct(app);
    law_cold_start_follows_config_order(tiers);
    lemma_fresh_order(app, cfg, tiers.len() as int);
    assert(tiers.take(tiers.len() as int) == tiers);
    assert(urls.take(urls.len() as int) == urls);
}

/// The tiers of a fresh state list the numbers from 0 on, one after the other.
proof fn lemma_fresh_indices(app: App, cfg: Config, t: int)
    requires
        fresh(app, cfg),
        0 <= t <= app.tiers@.len(),
    ensures
        app.tiers@.map_values(|shape: TierShape| shape.indices@).take(t).flatten_alt() == Seq::new(
            upstream_count(config_urls(cfg).take(t)),
            |i: int| i as usize,
        ),
    decreases t,
{
    let lists = app.tiers@.map_values(|shape: TierShape| shape.indices@);
    let urls = config_urls(cfg);
    if t > 0 {
        lemma_fresh_indices(app, cfg, t - 1);
        lemma_upstream_count(urls, t - 1);
        assert(lists.take(t).drop_last() == lists.take(t - 1));
        assert(lists.take(t).last() == lists[t - 1]);
        assert(app.tiers@[t - 1].indices@ == tier_indices(urls, t - 1));
    } else {
        assert(lists.take(0) == Seq::<Seq<usize>>::empty());
        assert(urls.take(0) == Seq::<Seq<String>>::empty());
    }
}

/// What is assembled from a configuration: the URLs tier after tier, numbered in
/// that order, with nothing known of any and no path remembered; and tiers that
/// keep their strategies and list those numbers in order. No probe pass is asked
/// for.
pub proof fn law_what_is_built(cfg: &Config, app: App)
    requires
        call_ensures(build, (cfg,), app),
    ensures
        ({
            let urls = cfg.tiers@.map_values(
                |tier: Tier| tier.upstreams@.map_values(|u: Upstream| u.url),
            );
            let ups = app.registry@.upstreams;
            &&& ups.map_values(|u: UpstreamSnapshot| u.url) == urls.flatten()
            &&& ups.map_values(|u: UpstreamSnapshot| u.tier) == urls.map(
                |t: int, of_tier: Seq<String>| Seq::new(of_tier.len(), |j: int| t as usize),
            ).flatten()
            &&& forall|i: int|
                0 <= i < ups.len() ==> (#[trigger] ups[i]).index == i && unknown_yet(ups[i])
            &&& app.tiers@.map_values(|shape: TierShape| shape.indices@).flatten() == Seq::new(
                ups.len(),
                |i: int| i as usize,
            )
        }),
        forall|path: Seq<char>| !#[trigger] app.registry@.affinity.contains_key(path),
        app.tiers@.len() == cfg.tiers@.len(),
        forall|t: int|
            0 <= t < cfg.tiers@.len() ==> {
                &&& (#[trigger] app.tiers@[t]).strategy == cfg.tiers@[t].strategy
                &&& app.tiers@[t].indices@.len() == cfg.tiers@[t].upstreams@.len()
            },
        !app.prober.wants_pass(),
        app.wf(),
{
    let urls = cfg.tiers@.map_values(|tier: Tier| tier.upstreams@.map_values(|u: Upstream| u.url));
    let lists = app.tiers@.map_values(|shape: TierShape| shape.indices@);
    assert(config_urls(*cfg) == urls);
    law_cold_upstreams_are_the_urls(urls);
    lemma_cold_upstreams_len(urls);
    lemma_fresh_indices(app, *cfg, app.tiers@.len() as int);
    assert(lists.take(app.tiers@.len() as int) == lists);
    assert(urls.take(urls.len() as int) == urls);
    lists.lemma_flatten_and_flatten_alt_are_equivalent();
    let ups = app.registry@.upstreams;
    assert forall|i: int| 0 <= i < ups.len() implies (#[trigger] ups[i]).index == i && unknown_yet(
        ups[i],
    ) by {
        assert(cold_upstreams(urls)[i].index == i as usize);
    }
    assert forall|t: int| 0 <= t < cfg.tiers@.len() implies (#[trigger] app.tiers@[t]).strategy
        == cfg.tiers@[t].strategy && app.tiers@[t].indices@.len()
        == cfg.tiers@[t].upstreams@.len() by {
        assert(app.tiers@[t].indices@ == tier_indices(config_urls(*cfg), t));
        assert(urls[t].len() == cfg.tiers@[t].upstreams@.len());
    }
}

/// Whether upstream `index` is the one remembered for a NAR request of `rest`, the
/// path without its leading slashes.
pub open spec fn is_remembered(app: App, kind: RequestKind, rest: Seq<char>, index: usize) -> bool {
    kind == RequestKind::Nar && app.registry@.affinity.contains_key(rest)
        && app.registry@.affinity[rest] == index
}

/// A request forwarded by the built-in rules is as it came, with nothing tried
/// yet; its plan is every upstream that is not marked down, each once, and begins
/// with the one remembered for its path if that is not marked down.
pub proof fn law_forwarded_request(
    app: &App,
    engine: &DefaultEngine,
    kind: RequestKind,
    head: bool,
    path: &str,
    walk: Forward,
    slashes: Seq<char>,
    rest: Seq<char>,
)
    requires
        app.wf(),
        call_ensures(forward::<DefaultEngine>, (app, engine, kind, head, path), walk),
        path@ == slashes + rest,
        forall|i: int| 0 <= i < slashes.len() ==> #[trigger] slashes[i] == '/',
        rest.len() > 0 ==> rest[0] != '/',
    ensures
        walk@.kind == kind,
        walk@.head == head,
        walk@.path == path@,
        walk@.tried == 0,
        walk@.attempts == app.default_plan(kind, path@),
        walk@.attempts.no_duplicates(),
        forall|index: usize| #[trigger]
            walk@.attempts.contains(index) <==> index < app.registry@.upstreams.len()
                && app.registry@.upstreams[index as int].healthy != Some(false),
        forall|index: usize| #[trigger]
            is_remembered(*app, kind, rest, index) && app.registry@.upstreams[index as int].healthy
                != Some(false) ==> walk@.attempts.len() > 0 && walk@.attempts[0] == index,
{
    let (input, plan) = choose|input: SelectionInput, plan: Plan|
        app.describes(kind, path@, input) && #[trigger] call_ensures(
            DefaultEngine::plan,
            (engine, &input),
            plan,
        ) && walk@.attempts == plan.attempts@;
    law_built_in_plan(*app, *engine, kind, path@, input, plan);
    law_plan_is_the_reachable_upstreams(*app, kind, path@);
    lemma_without_leading_slashes(path@, slashes, rest);
    assert forall|index: usize| #[trigger]
        is_remembered(*app, kind, rest, index) && app.registry@.upstreams[index as int].healthy
            != Some(false) implies walk@.attempts.len() > 0 && walk@.attempts[0] == index by {
        lemma_usable_is_not_down(*app, index);
        law_affinity_goes_first(index, tiers_now(app.tiers@, app.registry@.upstreams));
    }
}

/// In what order a forwarded request goes, on what is known of the upstreams: a
/// lower tier first, and within a tier the lower latency, narinfo before probe and
/// any before none, and the lower index where that does not decide. Only the
/// upstream remembered for the path may jump ahead.
pub proof fn law_order_of_attempts(
    app: &App,
    engine: &DefaultEngine,
    kind: RequestKind,
    head: bool,
    path: &str,
    walk: Forward,
    slashes: Seq<char>,
    rest: Seq<char>,
    a: usize,
    b: usize,
)
    requires
        app.wf(),
        call_ensures(forward::<DefaultEngine>, (app, engine, kind, head, path), walk),
        path@ == slashes + rest,
        forall|i: int| 0 <= i < slashes.len() ==> #[trigger] slashes[i] == '/',
        rest.len() > 0 ==> rest[0] != '/',
        a < app.registry@.upstreams.len(),
        b < app.registry@.upstreams.len(),
        app.registry@.upstreams[a as int].healthy != Some(false),
        app.registry@.upstreams[b as int].healthy != Some(false),
        !is_remembered(*app, kind, rest, b),
        ({
            let u = app.registry@.upstreams[a as int];
            let v = app.registry@.upstreams[b as int];
            ||| u.tier < v.tier
            ||| u.tier == v.tier && latencies_are_numbers(app.registry@.upstreams) && goes_first(
                u,
                a as int,
                v,
                b as int,
            )
        }),
    ensures
        precedes(walk@.attempts, a, b),
{
    law_forwarded_request(app, engine, kind, head, path, walk, slashes, rest);
    lemma_without_leading_slashes(path@, slashes, rest);
    let ups = app.registry@.upstreams;
    let u = ups[a as int];
    let v = ups[b as int];
    if u.tier < v.tier {
        law_lower_tier_goes_first(*app, kind, path@, a, b);
    } else {
        let tiers = tiers_now(app.tiers@, ups);
        let (t, j) = lemma_standing(*app, a as int);
        let us = tiers[t];
        assert forall|p: int| 0 <= p < us.len() implies #[trigger] us[p]
            == ups[app.tiers@[t].indices@[p] as int] && app.tiers@[t].indices@[p] < ups.len() by {}
        law_numbers_are_sortable(us);
        assert(beats(u, v) || (!beats(v, u) && a < b));
        law_better_measured_goes_first(*app, kind, path@, a, b);
    }
}

/// A NAR comes from where its narinfo came from: once a narinfo was relayed from an
/// upstream, the request for the path that its first `URL:` line holds, in full,
/// tries that upstream first, unless it has been marked down or the entry is gone.
/// (A path with a leading slash of its own is remembered with it, and no request
/// finds it.)
pub proof fn law_nar_comes_from_where_its_narinfo_came_from(
    app: &mut App,
    index: usize,
    headers: Vec<Header>,
    body: Vec<u8>,
    reply: Reply,
    before: Seq<char>,
    left: Seq<char>,
    nar: Seq<char>,
    right: Seq<char>,
    after: Seq<char>,
    later: &App,
    engine: &DefaultEngine,
    head: bool,
    path: &str,
    walk: Forward,
    next: Option<usize>,
)
    requires
        call_ensures(finish_narinfo, (app, index, headers, Some(body)), reply),
        vstd::utf8::valid_utf8(body@),
        vstd::utf8::decode_utf8(body@) == before + (seq!['U', 'R', 'L', ':'] + (left + nar + right))
            + after,
        before.len() > 0 ==> before.last() == '\n',
        forall|i: int|
            i < before.len() ==> !#[trigger] url_line_at(vstd::utf8::decode_utf8(body@), i),
        after.len() > 0 ==> after[0] == '\n',
        !(left + nar + right).contains('\n'),
        forall|i: int| 0 <= i < left.len() ==> is_white_space(#[trigger] left[i]),
        forall|i: int| 0 <= i < right.len() ==> is_white_space(#[trigger] right[i]),
        nar.len() > 0 ==> !is_white_space(nar.first()) && !is_white_space(nar.last()),
        nar.len() > 0 ==> nar[0] != '/',
        later.wf(),
        later.registry@.affinity.contains_key(nar) && later.registry@.affinity[nar]
            == final(app).registry@.affinity[nar],
        later.registry@.upstreams[index as int].healthy != Some(false),
        path@ == seq!['/'] + nar,
        call_ensures(
            forward::<DefaultEngine>,
            (later, engine, RequestKind::Nar, head, path),
            walk,
        ),
        call_ensures(Forward::next_index, (&walk,), next),
    ensures
        final(app).registry@.affinity.contains_key(nar),
        next == Some(index),
{
    law_named_nar_is_the_whole_path(body@, before, left, nar, right, after);
    law_forwarded_request(
        later,
        engine,
        RequestKind::Nar,
        head,
        path,
        walk,
        seq!['/'],
        nar,
    );
    assert(is_remembered(*later, RequestKind::Nar, nar, index));
}

} // verus!
