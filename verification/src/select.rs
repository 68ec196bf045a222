//! The selection boundary: plain data in, ordered fetch plan out.
use crate::config::Strategy;
use crate::measure::Measure;
use crate::state::UpstreamSnapshot;
use vstd::prelude::*;

verus! {

#[derive(Debug, Clone, Copy, PartialEq, Eq, Structural)]
pub enum RequestKind {
    Narinfo,
    Nar,
}

/// What the selection engine knows of a request.
#[derive(Debug)]
pub struct SelectionInput {
    pub kind: RequestKind,
    pub path: String,
    /// Upstream that served the narinfo naming this NAR, when known.
    pub affinity: Option<usize>,
    pub tiers: Vec<TierInput>,
}

#[derive(Debug)]
pub struct TierInput {
    pub strategy: Strategy,
    pub upstreams: Vec<UpstreamSnapshot>,
}

/// Ordered upstream indices to try; empty means answer 404 without asking
/// anyone.
#[derive(Debug)]
pub struct Plan {
    pub attempts: Vec<usize>,
}

/// Turns what is known of a request into a plan.
pub trait SelectionEngine: Send + Sync {
    fn plan(&self, input: &SelectionInput) -> Plan;
}

/// Built-in rules: affinity first, then tiers in config order; within a tier
/// upstreams ranked by observed latency (narinfo average, falling back to the
/// probe average), unmeasured ones keeping config order at the back; upstreams
/// marked down are skipped entirely.
pub struct DefaultEngine;

/// The upstreams of each tier.
pub open spec fn tier_views(tiers: Seq<TierInput>) -> Seq<Seq<UpstreamSnapshot>> {
    tiers.map_values(|t: TierInput| t.upstreams@)
}

/// Whether an upstream is marked down.
pub open spec fn down(u: UpstreamSnapshot) -> bool {
    u.healthy == Some(false)
}

/// What an upstream is ranked by: narinfo latency, else probe latency.
pub open spec fn latency(u: UpstreamSnapshot) -> Option<Measure> {
    match u.narinfo_ms {
        Some(ms) => Some(ms),
        None => u.probe_ms,
    }
}

/// Whether `u` is known to be better than `v`: by a lower latency, or by having
/// one at all.
pub open spec fn beats(u: UpstreamSnapshot, v: UpstreamSnapshot) -> bool {
    match (latency(u), latency(v)) {
        (Some(a), Some(b)) => a.less(b),
        (Some(_), None) => true,
        (None, _) => false,
    }
}

/// How many of the positions in `order` stay ahead of position `p` when it is
/// put behind the last one that it does not beat.
pub open spec fn ahead_of(us: Seq<UpstreamSnapshot>, order: Seq<int>, p: int) -> int
    decreases order.len(),
{
    if order.len() > 0 && beats(us[p], us[order.last()]) {
        ahead_of(us, order.drop_last(), p)
    } else {
        order.len() as int
    }
}

/// Positions of the usable upstreams among the first `n`, best first: each in
/// turn goes behind the last one that it does not beat.
pub open spec fn ranking_upto(us: Seq<UpstreamSnapshot>, n: int) -> Seq<int>
    decreases n,
{
    if n <= 0 {
        Seq::empty()
    } else {
        let before = ranking_upto(us, n - 1);
        if down(us[n - 1]) {
            before
        } else {
            before.insert(ahead_of(us, before, n - 1), n - 1)
        }
    }
}

/// Positions of a tier's usable upstreams, best first.
pub open spec fn ranking(us: Seq<UpstreamSnapshot>) -> Seq<int> {
    ranking_upto(us, us.len() as int)
}

/// Whether position `p` ranks no later than `q`: because it beats it, or by
/// position where neither beats the other.
pub open spec fn ranks_no_later(us: Seq<UpstreamSnapshot>, p: int, q: int) -> bool {
    beats(us[p], us[q]) || (!beats(us[q], us[p]) && p <= q)
}

/// Whether position `p` holds an upstream that is not marked down.
pub open spec fn usable_at(us: Seq<UpstreamSnapshot>, p: int) -> bool {
    0 <= p < us.len() && !down(us[p])
}

/// Whether the usable upstreams of a tier can be sorted at all: their ranks do
/// not run in circles. A latency that is no number may bring that about, since
/// it compares with nothing.
pub open spec fn sortable(us: Seq<UpstreamSnapshot>) -> bool {
    forall|p: int, q: int, r: int|
        usable_at(us, p) && usable_at(us, q) && usable_at(us, r) && #[trigger] ranks_no_later(
            us,
            p,
            q,
        ) && #[trigger] ranks_no_later(us, q, r) ==> ranks_no_later(us, p, r)
}

/// Indices of a tier's usable upstreams, best first.
pub open spec fn ranked_indices(us: Seq<UpstreamSnapshot>) -> Seq<usize> {
    ranking(us).map_values(|p: int| us[p].index)
}

/// Every tier's ranked indices, tier after tier.
pub open spec fn tier_order(tiers: Seq<Seq<UpstreamSnapshot>>) -> Seq<usize>
    decreases tiers.len(),
{
    if tiers.len() == 0 {
        Seq::empty()
    } else {
        tier_order(tiers.drop_last()) + ranked_indices(tiers.last())
    }
}

/// `s` without what occurred before.
pub open spec fn first_occurrences(s: Seq<usize>) -> Seq<usize>
    decreases s.len(),
{
    if s.len() == 0 {
        s
    } else {
        let before = first_occurrences(s.drop_last());
        if before.contains(s.last()) {
            before
        } else {
            before.push(s.last())
        }
    }
}

/// Whether some tier holds an upstream of this index that is marked down.
pub open spec fn marked_down(tiers: Seq<Seq<UpstreamSnapshot>>, index: usize) -> bool {
    exists|t: int, j: int|
        #![trigger tiers[t][j]]
        0 <= t < tiers.len() && 0 <= j < tiers[t].len() && tiers[t][j].index == index
            && down(tiers[t][j])
}

/// The affinity upstream, unless it is marked down.
pub open spec fn preferred(
    affinity: Option<usize>,
    tiers: Seq<Seq<UpstreamSnapshot>>,
) -> Seq<usize> {
    match affinity {
        Some(index) => if marked_down(tiers, index) {
            Seq::empty()
        } else {
            seq![index]
        },
        None => Seq::empty(),
    }
}

/// The plan of the built-in rules: the preferred upstream, then the tiers in
/// order, each upstream once.
pub open spec fn planned(
    affinity: Option<usize>,
    tiers: Seq<Seq<UpstreamSnapshot>>,
) -> Seq<usize> {
    first_occurrences(preferred(affinity, tiers) + tier_order(tiers))
}

/// Whether `order` holds the usable ones of the first `n` positions, each once.
pub open spec fn lists_usable(us: Seq<UpstreamSnapshot>, n: int, order: Seq<int>) -> bool {
    &&& forall|p: int| #[trigger] order.contains(p) <==> 0 <= p < n && !down(us[p])
    &&& order.no_duplicates()
}

/// Whether every position in `order` ranks ahead of those after it.
pub open spec fn in_rank_order(us: Seq<UpstreamSnapshot>, order: Seq<int>) -> bool {
    forall|i: int, j: int|
        0 <= i < j < order.len() ==> ranks_no_later(us, #[trigger] order[i], #[trigger] order[j])
}

/// What makes a sequence of positions a stable sort of a tier: the usable
/// upstreams, each once, every one ranked ahead of those after it.
pub open spec fn is_stable_sort(us: Seq<UpstreamSnapshot>, order: Seq<int>) -> bool {
    lists_usable(us, us.len() as int, order) && in_rank_order(us, order)
}

/// Position `p` goes behind the last that it does not beat.
proof fn lemma_ahead_of(us: Seq<UpstreamSnapshot>, order: Seq<int>, p: int)
    ensures
        0 <= ahead_of(us, order, p) <= order.len(),
        forall|i: int|
            ahead_of(us, order, p) <= i < order.len() ==> beats(us[p], us[#[trigger] order[i]]),
        ahead_of(us, order, p) > 0 ==> !beats(us[p], us[order[ahead_of(us, order, p) - 1]]),
    decreases order.len(),
{
    if order.len() > 0 && beats(us[p], us[order.last()]) {
        let rest = order.drop_last();
        lemma_ahead_of(us, rest, p);
        let k = ahead_of(us, order, p);
        assert forall|i: int| k <= i < order.len() implies beats(us[p], us[#[trigger] order[i]]) by {
            if i < rest.len() {
                assert(order[i] == rest[i]);
            }
        }
    }
}

/// What stands in `order` with `n` put at `k`.
proof fn lemma_inserted(order: Seq<int>, k: int, n: int)
    requires
        0 <= k <= order.len(),
    ensures
        forall|p: int| #[trigger]
            order.insert(k, n).contains(p) <==> p == n || order.contains(p),
        forall|i: int|
            0 <= i <= order.len() ==> #[trigger] order.insert(k, n)[i] == (if i < k {
                order[i]
            } else if i == k {
                n
            } else {
                order[i - 1]
            }),
{
    let new = order.insert(k, n);
    assert forall|p: int| #[trigger] new.contains(p) <==> p == n || order.contains(p) by {
        assert(new[k] == n);
        if order.contains(p) {
            let i = choose|i: int| 0 <= i < order.len() && order[i] == p;
            assert(if i < k {
                new[i] == p
            } else {
                new[i + 1] == p
            });
        }
        if new.contains(p) && p != n {
            let i = choose|i: int| 0 <= i < new.len() && new[i] == p;
            assert(if i < k {
                order[i] == p
            } else {
                order[i - 1] == p
            });
        }
    }
}

/// Every usable position is ranked once, and nothing else is.
proof fn lemma_ranking_lists_usable(us: Seq<UpstreamSnapshot>, n: int)
    requires
        0 <= n <= us.len(),
    ensures
        lists_usable(us, n, ranking_upto(us, n)),
    decreases n,
{
    if n > 0 {
        lemma_ranking_lists_usable(us, n - 1);
        let before = ranking_upto(us, n - 1);
        let order = ranking_upto(us, n);
        if !down(us[n - 1]) {
            let k = ahead_of(us, before, n - 1);
            lemma_ahead_of(us, before, n - 1);
            lemma_inserted(before, k, n - 1);
            assert(!before.contains(n - 1));
            assert forall|i: int, j: int|
                0 <= i < order.len() && 0 <= j < order.len() && i != j implies order[i]
                != order[j] by {
                let a = if i < k {
                    i
                } else {
                    i - 1
                };
                let b = if j < k {
                    j
                } else {
                    j - 1
                };
                if i != k {
                    assert(order[i] == before[a]);
                    assert(before.contains(before[a]));
                }
                if j != k {
                    assert(order[j] == before[b]);
                    assert(before.contains(before[b]));
                }
            }
        }
        assert forall|p: int| #[trigger] order.contains(p) <==> 0 <= p < n && !down(us[p]) by {
            assert(before.contains(p) <==> 0 <= p < n - 1 && !down(us[p]));
        }
    }
}

/// Where ranks do not run in circles, every position is ranked ahead of those
/// after it.
proof fn lemma_ranking_in_order(us: Seq<UpstreamSnapshot>, n: int)
    requires
        0 <= n <= us.len(),
        sortable(us),
    ensures
        in_rank_order(us, ranking_upto(us, n)),
    decreases n,
{
    if n > 0 {
        lemma_ranking_in_order(us, n - 1);
        let p = n - 1;
        let before = ranking_upto(us, p);
        let order = ranking_upto(us, n);
        if !down(us[p]) {
            let k = ahead_of(us, before, p);
            lemma_ahead_of(us, before, p);
            lemma_inserted(before, k, p);
            lemma_ranking_lists_usable(us, p);
            assert forall|i: int| 0 <= i < before.len() implies usable_at(us, #[trigger] before[i])
                && before[i] < p by {
                assert(before.contains(before[i]));
            }
            assert forall|i: int, j: int| 0 <= i < j < order.len() implies ranks_no_later(
                us,
                #[trigger] order[i],
                #[trigger] order[j],
            ) by {
                if i == k {
                    assert(order[j] == before[j - 1]);
                } else if j == k {
                    assert(order[i] == before[i]);
                    assert(ranks_no_later(us, before[k - 1], p));
                    if i < k - 1 {
                        assert(ranks_no_later(us, before[i], before[k - 1]));
                        assert(usable_at(us, p));
                    }
                } else {
                    let a = if i < k {
                        i
                    } else {
                        i - 1
                    };
                    let b = if j < k {
                        j
                    } else {
                        j - 1
                    };
                    assert(ranks_no_later(us, before[a], before[b]));
                }
            }
        }
    }
}

/// Two sequences that hold the same positions, each once and in rank order, are
/// the same as far as they go.
proof fn lemma_same_start(us: Seq<UpstreamSnapshot>, a: Seq<int>, b: Seq<int>, n: int)
    requires
        a.no_duplicates(),
        b.no_duplicates(),
        forall|p: int| #[trigger] a.contains(p) <==> b.contains(p),
        in_rank_order(us, a),
        in_rank_order(us, b),
        0 <= n <= a.len(),
    ensures
        n <= b.len(),
        a.take(n) == b.take(n),
    decreases n,
{
    if n > 0 {
        let m = n - 1;
        lemma_same_start(us, a, b, m);
        assert forall|i: int| 0 <= i < m implies a[i] == b[i] by {
            assert(a.take(m)[i] == b.take(m)[i]);
        }
        assert(a.contains(a[m]));
        assert(b.contains(a[m]));
        let j = choose|j: int| 0 <= j < b.len() && b[j] == a[m];
        assert(j >= m);
        assert(b.contains(b[m]));
        assert(a.contains(b[m]));
        let i = choose|i: int| 0 <= i < a.len() && a[i] == b[m];
        assert(i >= m);
        if a[m] != b[m] {
            assert(ranks_no_later(us, b[m], b[j]));
            assert(ranks_no_later(us, a[m], a[i]));
        }
        assert(a.take(n) == b.take(n));
    }
}

/// A tier has at most one stable sort, and where it has one, that is its ranking.
pub proof fn law_ranking_is_unique(us: Seq<UpstreamSnapshot>, order: Seq<int>)
    requires
        is_stable_sort(us, order),
    ensures
        order == ranking(us),
        sortable(us),
{
    assert forall|p: int, q: int, r: int|
        usable_at(us, p) && usable_at(us, q) && usable_at(us, r) && #[trigger] ranks_no_later(
            us,
            p,
            q,
        ) && #[trigger] ranks_no_later(us, q, r) implies ranks_no_later(us, p, r) by {
        assert(order.contains(p) && order.contains(q) && order.contains(r));
        let i = choose|i: int| 0 <= i < order.len() && order[i] == p;
        let j = choose|j: int| 0 <= j < order.len() && order[j] == q;
        let k = choose|k: int| 0 <= k < order.len() && order[k] == r;
        if j < i {
            assert(ranks_no_later(us, order[j], order[i]));
        }
        if k < j {
            assert(ranks_no_later(us, order[k], order[j]));
        }
        if i < k {
            assert(ranks_no_later(us, order[i], order[k]));
        }
    }
    let other = ranking(us);
    lemma_ranking_lists_usable(us, us.len() as int);
    lemma_ranking_in_order(us, us.len() as int);
    assert forall|p: int| #[trigger] order.contains(p) <==> other.contains(p) by {
        assert(other.contains(p) <==> 0 <= p < us.len() && !down(us[p]));
    }
    assert forall|p: int| #[trigger] other.contains(p) <==> order.contains(p) by {
        assert(order.contains(p) <==> 0 <= p < us.len() && !down(us[p]));
    }
    lemma_same_start(us, order, other, order.len() as int);
    lemma_same_start(us, other, order, other.len() as int);
    assert(order.take(order.len() as int) == order);
    assert(other.take(other.len() as int) == other);
}

/// A tier is ranked by a stable sort wherever it can be sorted: the usable
/// upstreams, each once, the better one first and config order between equals.
pub proof fn law_ranking_is_stable_sort(us: Seq<UpstreamSnapshot>)
    ensures
        is_stable_sort(us, ranking(us)) <==> sortable(us),
        lists_usable(us, us.len() as int, ranking(us)),
{
    lemma_ranking_lists_usable(us, us.len() as int);
    if sortable(us) {
        lemma_ranking_in_order(us, us.len() as int);
    }
    if is_stable_sort(us, ranking(us)) {
        law_ranking_is_unique(us, ranking(us));
    }
}

/// Whether every latency of a tier's usable upstreams is a number.
pub open spec fn numbers_only(us: Seq<UpstreamSnapshot>) -> bool {
    forall|p: int|
        usable_at(us, p) && latency(#[trigger] us[p]) is Some ==> (latency(us[p])->0).is_number()
}

/// A tier whose latencies are numbers can be sorted, measured or not.
pub proof fn law_numbers_are_sortable(us: Seq<UpstreamSnapshot>)
    requires
        numbers_only(us),
    ensures
        sortable(us),
{
}

/// Whether `u` is known to be better than `v`.
fn faster(u: &UpstreamSnapshot, v: &UpstreamSnapshot) -> (r: bool)
    ensures
        r == beats(*u, *v),
{
    match (score(u), score(v)) {
        (Some(a), Some(b)) => a.less_than(b),
        (Some(_), None) => true,
        (None, _) => false,
    }
}

/// What an upstream is ranked by.
fn score(u: &UpstreamSnapshot) -> (s: Option<Measure>)
    ensures
        s == latency(*u),
{
    match u.narinfo_ms {
        Some(ms) => Some(ms),
        None => u.probe_ms,
    }
}

/// Whether an upstream is marked down.
fn known_down(u: &UpstreamSnapshot) -> (r: bool)
    ensures
        r == down(*u),
{
    match u.healthy {
        Some(up) => !up,
        None => false,
    }
}

/// Whether some tier holds an upstream of this index that is marked down.
fn is_down(tiers: &Vec<TierInput>, index: usize) -> (r: bool)
    ensures
        r == marked_down(tier_views(tiers@), index),
{
    let mut t: usize = 0;
    while t < tiers.len()
        invariant
            t <= tiers@.len(),
            forall|a: int, j: int|
                #![trigger tiers@[a].upstreams@[j]]
                0 <= a < t && 0 <= j < tiers@[a].upstreams@.len() ==> !(
                tiers@[a].upstreams@[j].index == index && down(tiers@[a].upstreams@[j])),
        decreases tiers@.len() - t,
    {
        let us = &tiers[t].upstreams;
        let mut j: usize = 0;
        while j < us.len()
            invariant
                t < tiers@.len(),
                us == &tiers@[t as int].upstreams,
                j <= us@.len(),
                forall|k: int|
                    #![trigger us@[k]]
                    0 <= k < j ==> !(us@[k].index == index && down(us@[k])),
            decreases us@.len() - j,
        {
            if us[j].index == index && known_down(&us[j]) {
                assert(down(tier_views(tiers@)[t as int][j as int]));
                return true;
            }
            j = j + 1;
        }
        t = t + 1;
    }
    assert forall|a: int, j: int|
        #![trigger tier_views(tiers@)[a][j]]
        0 <= a < tiers@.len() && 0 <= j < tier_views(tiers@)[a].len() implies !(tier_views(
        tiers@,
    )[a][j].index == index && down(tier_views(tiers@)[a][j])) by {
        assert(tier_views(tiers@)[a][j] == tiers@[a].upstreams@[j]);
    }
    false
}

/// Whether `v` holds `x`.
fn holds(v: &Vec<usize>, x: usize) -> (r: bool)
    ensures
        r == v@.contains(x),
{
    let mut i: usize = 0;
    while i < v.len()
        invariant
            i <= v@.len(),
            forall|j: int| 0 <= j < i ==> v@[j] != x,
        decreases v@.len() - i,
    {
        if v[i] == x {
            return true;
        }
        i = i + 1;
    }
    false
}

/// Positions as the specification has them.
spec fn as_positions(order: Seq<usize>) -> Seq<int> {
    order.map_values(|p: usize| p as int)
}

/// Ranks one tier: positions of its usable upstreams, best first.
fn rank(us: &Vec<UpstreamSnapshot>) -> (order: Vec<usize>)
    ensures
        as_positions(order@) == ranking(us@),
        forall|i: int| 0 <= i < order@.len() ==> #[trigger] order@[i] < us@.len(),
{
    let mut order: Vec<usize> = Vec::new();
    let mut n: usize = 0;
    while n < us.len()
        invariant
            n <= us@.len(),
            as_positions(order@) == ranking_upto(us@, n as int),
            forall|i: int| 0 <= i < order@.len() ==> #[trigger] order@[i] < us@.len(),
        decreases us@.len() - n,
    {
        let ghost before = as_positions(order@);
        if !known_down(&us[n]) {
            let mut k: usize = order.len();
            assert(before.take(k as int) == before);
            while k > 0 && faster(&us[n], &us[order[k - 1]])
                invariant
                    n < us@.len(),
                    k <= order@.len(),
                    before == as_positions(order@),
                    ahead_of(us@, before, n as int) == ahead_of(
                        us@,
                        before.take(k as int),
                        n as int,
                    ),
                    forall|i: int| 0 <= i < order@.len() ==> #[trigger] order@[i] < us@.len(),
                decreases k,
            {
                assert(before.take(k as int).last() == order@[k - 1] as int);
                assert(before.take(k as int).drop_last() == before.take(k - 1));
                k = k - 1;
            }
            proof {
                if k > 0 {
                    assert(before.take(k as int).last() == order@[k - 1] as int);
                }
                assert(ahead_of(us@, before, n as int) == k);
            }
            order.insert(k, n);
            assert(as_positions(order@) == before.insert(k as int, n as int));
        }
        n = n + 1;
    }
    order
}

impl SelectionEngine for DefaultEngine {
    fn plan(&self, input: &SelectionInput) -> (plan: Plan)
        ensures
            plan.attempts@ == planned(input.affinity, tier_views(input.tiers@)),
    {
        let mut attempts: Vec<usize> = Vec::new();
        let ghost views = tier_views(input.tiers@);
        let ghost mut walked: Seq<usize> = preferred(input.affinity, views);
        let ghost start = walked;
        match input.affinity {
            Some(index) => {
                if !is_down(&input.tiers, index) {
                    attempts.push(index);
                }
            },
            None => {},
        }
        proof {
            reveal_with_fuel(first_occurrences, 2);
            assert(attempts@ == first_occurrences(walked));
            assert(walked == start + tier_order(views.take(0)));
        }
        let mut t: usize = 0;
        while t < input.tiers.len()
            invariant
                t <= input.tiers@.len(),
                views == tier_views(input.tiers@),
                start == preferred(input.affinity, views),
                walked == start + tier_order(views.take(t as int)),
                attempts@ == first_occurrences(walked),
            decreases input.tiers@.len() - t,
        {
            let us = &input.tiers[t].upstreams;
            let order = rank(us);
            let ghost before = walked;
            let ghost indices = ranked_indices(us@);
            assert(indices.len() == order@.len());
            let mut i: usize = 0;
            while i < order.len()
                invariant
                    i <= order@.len(),
                    as_positions(order@) == ranking(us@),
                    forall|i: int| 0 <= i < order@.len() ==> #[trigger] order@[i] < us@.len(),
                    indices == ranked_indices(us@),
                    indices.len() == order@.len(),
                    walked == before + indices.take(i as int),
                    attempts@ == first_occurrences(walked),
                decreases order@.len() - i,
            {
                let index: usize = us[order[i]].index;
                proof {
                    assert(as_positions(order@)[i as int] == order@[i as int] as int);
                    assert(indices[i as int] == index);
                    walked = walked.push(index);
                    assert(walked == before + indices.take(i + 1));
                    assert(walked.drop_last() == before + indices.take(i as int));
                }
                if !holds(&attempts, index) {
                    attempts.push(index);
                }
                i = i + 1;
            }
            proof {
                assert(indices.take(i as int) == indices);
                assert(views[t as int] == us@);
                assert(views.take(t + 1).drop_last() == views.take(t as int));
                assert(walked == start + tier_order(views.take(t + 1)));
            }
            t = t + 1;
        }
        assert(views.take(t as int) == views);
        Plan { attempts }
    }
}

/// Whether `x` stands before `y`.
pub open spec fn precedes(s: Seq<usize>, x: usize, y: usize) -> bool {
    exists|i: int, j: int|
        0 <= i < j < s.len() && #[trigger] s[i] == x && #[trigger] s[j] == y
}

/// Whether no upstream index occurs twice.
pub open spec fn distinct_indices(tiers: Seq<Seq<UpstreamSnapshot>>) -> bool {
    forall|t1: int, j1: int, t2: int, j2: int|
        #![trigger tiers[t1][j1], tiers[t2][j2]]
        0 <= t1 < tiers.len() && 0 <= j1 < tiers[t1].len() && 0 <= t2 < tiers.len()
            && 0 <= j2 < tiers[t2].len() && tiers[t1][j1].index
            == tiers[t2][j2].index ==> t1 == t2 && j1 == j2
}

/// Whether some tier holds an upstream of this index that is not marked down.
pub open spec fn usable(tiers: Seq<Seq<UpstreamSnapshot>>, index: usize) -> bool {
    exists|t: int, j: int|
        #![trigger tiers[t][j]]
        0 <= t < tiers.len() && 0 <= j < tiers[t].len() && tiers[t][j].index == index
            && !down(tiers[t][j])
}

/// All upstream indices in config order.
pub open spec fn config_order(tiers: Seq<Seq<UpstreamSnapshot>>) -> Seq<usize>
    decreases tiers.len(),
{
    if tiers.len() == 0 {
        Seq::empty()
    } else {
        config_order(tiers.drop_last()) + tiers.last().map_values(
            |u: UpstreamSnapshot| u.index,
        )
    }
}

proof fn lemma_first_occurrences(s: Seq<usize>)
    ensures
        forall|x: usize| #[trigger] first_occurrences(s).contains(x) <==> s.contains(x),
        first_occurrences(s).no_duplicates(),
        s.len() > 0 ==> first_occurrences(s).len() > 0 && first_occurrences(s)[0] == s[0],
    decreases s.len(),
{
    if s.len() > 0 {
        let rest = s.drop_last();
        lemma_first_occurrences(rest);
        let before = first_occurrences(rest);
        let all = first_occurrences(s);
        assert forall|x: usize| #[trigger] all.contains(x) <==> s.contains(x) by {
            if s.contains(x) && x != s.last() {
                let i = choose|i: int| 0 <= i < s.len() && s[i] == x;
                assert(rest[i] == x);
                assert(before.contains(x));
            }
            if rest.contains(x) {
                let i = choose|i: int| 0 <= i < rest.len() && rest[i] == x;
                assert(s[i] == x);
            }
            assert(s[s.len() - 1] == s.last());
            if before.contains(x) {
                let i = choose|i: int| 0 <= i < before.len() && before[i] == x;
                assert(all[i] == x);
            }
            if !before.contains(s.last()) {
                assert(all[before.len() as int] == s.last());
                if all.contains(x) && x != s.last() {
                    let i = choose|i: int| 0 <= i < all.len() && all[i] == x;
                    assert(before[i] == x);
                }
            }
        }
        if rest.len() == 0 {
            assert(before.len() == 0);
        }
    }
}

/// What occurs by position `i` comes out ahead of what occurs only later.
proof fn lemma_first_occurrences_order(s: Seq<usize>, i: int, y: usize)
    requires
        0 <= i < s.len(),
        forall|k: int| 0 <= k <= i ==> s[k] != y,
        s.contains(y),
    ensures
        precedes(first_occurrences(s), s[i], y),
    decreases s.len(),
{
    let rest = s.drop_last();
    let before = first_occurrences(rest);
    let all = first_occurrences(s);
    let last = choose|k: int| 0 <= k < s.len() && s[k] == y;
    assert(last > i);
    lemma_first_occurrences(rest);
    if rest.contains(y) {
        lemma_first_occurrences_order(rest, i, y);
        let (a, b) = choose|a: int, b: int|
            0 <= a < b < before.len() && #[trigger] before[a] == s[i] && #[trigger] before[b] == y;
        assert(all[a] == s[i] && all[b] == y);
    } else {
        assert(last == s.len() - 1) by {
            if last < s.len() - 1 {
                assert(rest[last] == y);
            }
        }
        assert(rest[i] == s[i]);
        assert(before.contains(s[i]));
        let a = choose|a: int| 0 <= a < before.len() && before[a] == s[i];
        assert(!before.contains(y));
        assert(all == before.push(y));
        assert(all[a] == s[i] && all[before.len() as int] == y);
    }
}

proof fn lemma_no_repeats_kept(s: Seq<usize>)
    requires
        s.no_duplicates(),
    ensures
        first_occurrences(s) == s,
    decreases s.len(),
{
    if s.len() > 0 {
        let rest = s.drop_last();
        lemma_no_repeats_kept(rest);
        if rest.contains(s.last()) {
            let i = choose|i: int| 0 <= i < rest.len() && rest[i] == s.last();
            assert(s[i] == s[s.len() - 1]);
        }
        assert(rest.push(s.last()) == s);
    }
}

proof fn lemma_ranked_indices_contains(us: Seq<UpstreamSnapshot>, x: usize)
    ensures
        ranked_indices(us).contains(x) <==> exists|j: int|
            #![trigger us[j]]
            0 <= j < us.len() && us[j].index == x && !down(us[j]),
{
    lemma_ranking_lists_usable(us, us.len() as int);
    let order = ranking(us);
    let indices = ranked_indices(us);
    if indices.contains(x) {
        let i = choose|i: int| 0 <= i < indices.len() && indices[i] == x;
        assert(order.contains(order[i]));
        assert(us[order[i]].index == x);
    }
    if exists|j: int| #![trigger us[j]] 0 <= j < us.len() && us[j].index == x && !down(us[j]) {
        let j = choose|j: int|
            #![trigger us[j]]
            0 <= j < us.len() && us[j].index == x && !down(us[j]);
        assert(order.contains(j));
        let i = choose|i: int| 0 <= i < order.len() && order[i] == j;
        assert(indices[i] == x);
    }
}

proof fn lemma_tier_order_contains(tiers: Seq<Seq<UpstreamSnapshot>>, x: usize)
    ensures
        tier_order(tiers).contains(x) <==> usable(tiers, x),
    decreases tiers.len(),
{
    if tiers.len() > 0 {
        let rest = tiers.drop_last();
        let us = tiers.last();
        lemma_tier_order_contains(rest, x);
        lemma_ranked_indices_contains(us, x);
        let a = tier_order(rest);
        let b = ranked_indices(us);
        assert((a + b).contains(x) <==> a.contains(x) || b.contains(x)) by {
            if a.contains(x) {
                let i = choose|i: int| 0 <= i < a.len() && a[i] == x;
                assert((a + b)[i] == x);
            }
            if b.contains(x) {
                let i = choose|i: int| 0 <= i < b.len() && b[i] == x;
                assert((a + b)[a.len() + i] == x);
            }
            if (a + b).contains(x) {
                let i = choose|i: int| 0 <= i < (a + b).len() && (a + b)[i] == x;
                if i < a.len() {
                    assert(a[i] == x);
                } else {
                    assert(b[i - a.len()] == x);
                }
            }
        }
        if usable(rest, x) {
            let (t, j) = choose|t: int, j: int|
                #![trigger rest[t][j]]
                0 <= t < rest.len() && 0 <= j < rest[t].len() && rest[t][j].index == x
                    && !down(rest[t][j]);
            assert(tiers[t][j] == rest[t][j]);
        }
        if b.contains(x) {
            let j = choose|j: int|
                #![trigger us[j]]
                0 <= j < us.len() && us[j].index == x && !down(us[j]);
            assert(tiers[tiers.len() - 1][j] == us[j]);
        }
        if usable(tiers, x) {
            let (t, j) = choose|t: int, j: int|
                #![trigger tiers[t][j]]
                0 <= t < tiers.len() && 0 <= j < tiers[t].len() && tiers[t][j].index == x
                    && !down(tiers[t][j]);
            if t < rest.len() {
                assert(rest[t][j] == tiers[t][j]);
            } else {
                assert(us[j] == tiers[t][j]);
            }
        }
    }
}

proof fn lemma_tier_order_split(tiers: Seq<Seq<UpstreamSnapshot>>, t: int)
    requires
        0 <= t < tiers.len(),
    ensures
        exists|rest: Seq<usize>| #[trigger]
            (tier_order(tiers.take(t)) + ranked_indices(tiers[t]) + rest) == tier_order(tiers),
    decreases tiers.len(),
{
    let head = tier_order(tiers.take(t)) + ranked_indices(tiers[t]);
    if t == tiers.len() - 1 {
        assert(tiers.drop_last() == tiers.take(t));
        assert(head + Seq::<usize>::empty() == tier_order(tiers));
    } else {
        let shorter = tiers.drop_last();
        lemma_tier_order_split(shorter, t);
        assert(shorter.take(t) == tiers.take(t));
        let rest = choose|rest: Seq<usize>| #[trigger] (head + rest) == tier_order(shorter);
        assert(head + (rest + ranked_indices(tiers.last())) == tier_order(tiers));
    }
}

proof fn lemma_planned_contains(
    affinity: Option<usize>,
    tiers: Seq<Seq<UpstreamSnapshot>>,
    x: usize,
)
    ensures
        planned(affinity, tiers).contains(x) <==> preferred(affinity, tiers).contains(x) || usable(
            tiers,
            x,
        ),
{
    let a = preferred(affinity, tiers);
    let b = tier_order(tiers);
    lemma_first_occurrences(a + b);
    lemma_tier_order_contains(tiers, x);
    if a.contains(x) {
        let i = choose|i: int| 0 <= i < a.len() && a[i] == x;
        assert((a + b)[i] == x);
    }
    if b.contains(x) {
        let i = choose|i: int| 0 <= i < b.len() && b[i] == x;
        assert((a + b)[a.len() + i] == x);
    }
    if (a + b).contains(x) {
        let i = choose|i: int| 0 <= i < (a + b).len() && (a + b)[i] == x;
        if i < a.len() {
            assert(a[i] == x);
        } else {
            assert(b[i - a.len()] == x);
        }
    }
}

/// A plan tries no upstream twice.
pub proof fn law_each_attempt_once(affinity: Option<usize>, tiers: Seq<Seq<UpstreamSnapshot>>)
    ensures
        planned(affinity, tiers).no_duplicates(),
{
    lemma_first_occurrences(preferred(affinity, tiers) + tier_order(tiers));
}

/// A plan holds the affinity upstream unless it is marked down, every upstream
/// that is not marked down, and nothing else.
pub proof fn law_plan_membership(
    affinity: Option<usize>,
    tiers: Seq<Seq<UpstreamSnapshot>>,
    index: usize,
)
    ensures
        planned(affinity, tiers).contains(index) <==> (affinity == Some(index) && !marked_down(
            tiers,
            index,
        )) || usable(tiers, index),
{
    lemma_planned_contains(affinity, tiers, index);
    if affinity == Some(index) && !marked_down(tiers, index) {
        assert(preferred(affinity, tiers)[0] == index);
    }
}

/// An upstream that is marked down is skipped entirely, affinity or not: its
/// index is planned only if an upstream of the same index is not down.
pub proof fn law_down_is_skipped(
    affinity: Option<usize>,
    tiers: Seq<Seq<UpstreamSnapshot>>,
    t: int,
    j: int,
)
    requires
        0 <= t < tiers.len(),
        0 <= j < tiers[t].len(),
        down(tiers[t][j]),
    ensures
        planned(affinity, tiers).contains(tiers[t][j].index) ==> usable(tiers, tiers[t][j].index),
        distinct_indices(tiers) ==> !planned(affinity, tiers).contains(tiers[t][j].index),
{
    let index = tiers[t][j].index;
    law_plan_membership(affinity, tiers, index);
    assert(marked_down(tiers, index));
}

/// The remembered upstream goes first unless it is marked down.
pub proof fn law_affinity_goes_first(index: usize, tiers: Seq<Seq<UpstreamSnapshot>>)
    requires
        !marked_down(tiers, index),
    ensures
        planned(Some(index), tiers).len() > 0,
        planned(Some(index), tiers)[0] == index,
{
    lemma_first_occurrences(preferred(Some(index), tiers) + tier_order(tiers));
}

/// A plan is empty exactly when nobody is left to ask: every upstream is
/// marked down, and so is the remembered one or there is none.
pub proof fn law_empty_plan(affinity: Option<usize>, tiers: Seq<Seq<UpstreamSnapshot>>)
    ensures
        planned(affinity, tiers).len() == 0 <==> (forall|index: usize|
            !(affinity == Some(index) && !marked_down(tiers, index)) && !#[trigger] usable(
                tiers,
                index,
            )),
{
    let plan = planned(affinity, tiers);
    if plan.len() == 0 {
        assert forall|index: usize|
            !(affinity == Some(index) && !marked_down(tiers, index)) && !#[trigger] usable(
                tiers,
                index,
            ) by {
            law_plan_membership(affinity, tiers, index);
        }
    } else {
        law_plan_membership(affinity, tiers, plan[0]);
        assert(plan.contains(plan[0]));
        assert(usable(tiers, plan[0]) || affinity == Some(plan[0]));
    }
}

/// Tier order is absolute: an upstream of an earlier tier is tried before one
/// of a later tier, however much faster the later one measures. Only the
/// remembered upstream may jump ahead.
pub proof fn law_tier_order_is_absolute(
    affinity: Option<usize>,
    tiers: Seq<Seq<UpstreamSnapshot>>,
    t1: int,
    j1: int,
    t2: int,
    j2: int,
)
    requires
        distinct_indices(tiers),
        0 <= t1 < t2 < tiers.len(),
        0 <= j1 < tiers[t1].len(),
        0 <= j2 < tiers[t2].len(),
        !down(tiers[t1][j1]),
        !down(tiers[t2][j2]),
        affinity != Some(tiers[t2][j2].index),
    ensures
        precedes(planned(affinity, tiers), tiers[t1][j1].index, tiers[t2][j2].index),
{
    let x = tiers[t1][j1].index;
    let y = tiers[t2][j2].index;
    let first = preferred(affinity, tiers);
    let head = tiers.take(t2);
    let order = first + tier_order(tiers);
    assert(head[t1][j1] == tiers[t1][j1]);
    lemma_tier_order_contains(head, x);
    lemma_tier_order_contains(head, y);
    assert(!usable(head, y)) by {
        if usable(head, y) {
            let (t, j) = choose|t: int, j: int|
                #![trigger head[t][j]]
                0 <= t < head.len() && 0 <= j < head[t].len()
                    && head[t][j].index == y && !down(head[t][j]);
            assert(tiers[t][j].index == tiers[t2][j2].index);
        }
    }
    let before = tier_order(head);
    let k = choose|k: int| 0 <= k < before.len() && before[k] == x;
    lemma_tier_order_split(tiers, t2);
    let ranked = ranked_indices(tiers[t2]);
    let rest = choose|rest: Seq<usize>| #[trigger] (before + ranked + rest) == tier_order(tiers);
    let i = first.len() + k;
    assert(order[i] == x);
    assert forall|m: int| 0 <= m <= i implies order[m] != y by {
        if m >= first.len() {
            assert(order[m] == before[m - first.len()]);
            assert(before.contains(before[m - first.len()]));
        }
    }
    lemma_tier_order_contains(tiers, y);
    let n = choose|n: int| 0 <= n < tier_order(tiers).len() && tier_order(tiers)[n] == y;
    assert(order[first.len() + n] == y);
    lemma_first_occurrences_order(order, i, y);
}

/// What ranks in a tier before anything of index `y`, which no tier before it
/// offers, is tried before `y`.
proof fn lemma_goes_before(
    affinity: Option<usize>,
    tiers: Seq<Seq<UpstreamSnapshot>>,
    t: int,
    a: int,
    y: usize,
)
    requires
        0 <= t < tiers.len(),
        0 <= a < ranking(tiers[t]).len(),
        usable(tiers, y),
        !usable(tiers.take(t), y),
        forall|c: int|
            0 <= c <= a ==> tiers[t][#[trigger] ranking(tiers[t])[c]].index != y,
        !preferred(affinity, tiers).contains(y),
    ensures
        precedes(planned(affinity, tiers), tiers[t][ranking(tiers[t])[a]].index, y),
{
    let us = tiers[t];
    let positions = ranking(us);
    let x = us[positions[a]].index;
    let first = preferred(affinity, tiers);
    let head = tiers.take(t);
    let before = tier_order(head);
    let order = first + tier_order(tiers);
    let ranked = ranked_indices(us);
    lemma_tier_order_contains(head, y);
    lemma_tier_order_contains(tiers, y);
    lemma_tier_order_split(tiers, t);
    let rest = choose|rest: Seq<usize>| #[trigger] (before + ranked + rest) == tier_order(tiers);
    let i = first.len() + before.len() + a;
    assert(ranked[a] == x);
    assert(order[i] == x);
    assert forall|m: int| 0 <= m <= i implies order[m] != y by {
        if m >= first.len() + before.len() {
            let c = m - first.len() - before.len();
            assert(order[m] == ranked[c]);
            assert(ranked[c] == us[positions[c]].index);
        } else if m >= first.len() {
            assert(order[m] == before[m - first.len()]);
            assert(before.contains(before[m - first.len()]));
        } else {
            assert(order[m] == first[m]);
            assert(first.contains(first[m]));
        }
    }
    let n = choose|n: int| 0 <= n < tier_order(tiers).len() && tier_order(tiers)[n] == y;
    assert(order[first.len() + n] == y);
    lemma_first_occurrences_order(order, i, y);
}

/// What ranks earlier within a tier is tried earlier. Only the remembered
/// upstream may jump ahead.
proof fn lemma_ranked_earlier(
    affinity: Option<usize>,
    tiers: Seq<Seq<UpstreamSnapshot>>,
    t: int,
    a: int,
    b: int,
)
    requires
        distinct_indices(tiers),
        0 <= t < tiers.len(),
        0 <= a < b < ranking(tiers[t]).len(),
        affinity != Some(tiers[t][ranking(tiers[t])[b]].index),
    ensures
        ({
            let us = tiers[t];
            precedes(
                planned(affinity, tiers),
                us[ranking(us)[a]].index,
                us[ranking(us)[b]].index,
            )
        }),
{
    let us = tiers[t];
    let positions = ranking(us);
    let q = positions[b];
    let y = us[q].index;
    let head = tiers.take(t);
    lemma_ranking_lists_usable(us, us.len() as int);
    assert(positions.contains(q));
    assert(tiers[t][q].index == y);
    assert(!usable(head, y)) by {
        if usable(head, y) {
            let (s, j) = choose|s: int, j: int|
                #![trigger head[s][j]]
                0 <= s < head.len() && 0 <= j < head[s].len() && head[s][j].index == y
                    && !down(head[s][j]);
            assert(tiers[s][j].index == tiers[t][q].index);
        }
    }
    assert forall|c: int| 0 <= c <= a implies tiers[t][#[trigger] positions[c]].index != y by {
        assert(positions.contains(positions[c]));
        assert(positions[c] != positions[b]);
        assert(tiers[t][positions[c]].index != tiers[t][q].index);
    }
    lemma_goes_before(affinity, tiers, t, a, y);
}

/// Within a tier that can be sorted the better upstream goes first, and config
/// order decides where neither is. Only the remembered upstream may jump ahead.
pub proof fn law_rank_within_tier(
    affinity: Option<usize>,
    tiers: Seq<Seq<UpstreamSnapshot>>,
    t: int,
    p: int,
    q: int,
)
    requires
        distinct_indices(tiers),
        0 <= t < tiers.len(),
        sortable(tiers[t]),
        usable_at(tiers[t], p),
        usable_at(tiers[t], q),
        p != q,
        ranks_no_later(tiers[t], p, q),
        affinity != Some(tiers[t][q].index),
    ensures
        precedes(planned(affinity, tiers), tiers[t][p].index, tiers[t][q].index),
{
    let us = tiers[t];
    let positions = ranking(us);
    law_ranking_is_stable_sort(us);
    assert(positions.contains(p) && positions.contains(q));
    let a = choose|a: int| 0 <= a < positions.len() && positions[a] == p;
    let b = choose|b: int| 0 <= b < positions.len() && positions[b] == q;
    if b < a {
        assert(ranks_no_later(us, positions[b], positions[a]));
    }
    lemma_ranked_earlier(affinity, tiers, t, a, b);
}

/// Among the first `n` the measured rank ahead of the unmeasured, which keep
/// config order.
proof fn lemma_unmeasured_rank_last(us: Seq<UpstreamSnapshot>, n: int)
    requires
        0 <= n <= us.len(),
    ensures
        forall|i: int, j: int|
            #![trigger ranking_upto(us, n)[i], ranking_upto(us, n)[j]]
            0 <= i < j < ranking_upto(us, n).len() && latency(us[ranking_upto(us, n)[i]]) is None
                ==> latency(us[ranking_upto(us, n)[j]]) is None && ranking_upto(us, n)[i]
                < ranking_upto(us, n)[j],
    decreases n,
{
    if n > 0 {
        lemma_unmeasured_rank_last(us, n - 1);
        let p = n - 1;
        let before = ranking_upto(us, p);
        let order = ranking_upto(us, n);
        if !down(us[p]) {
            let k = ahead_of(us, before, p);
            lemma_ahead_of(us, before, p);
            lemma_inserted(before, k, p);
            lemma_ranking_lists_usable(us, p);
            assert forall|i: int, j: int|
                #![trigger order[i], order[j]]
                0 <= i < j < order.len() && latency(us[order[i]]) is None implies latency(
                us[order[j]],
            ) is None && order[i] < order[j] by {
                if i == k {
                    assert(order[j] == before[j - 1]);
                    assert(beats(us[p], us[before[j - 1]]));
                } else if j == k {
                    assert(order[i] == before[i]);
                    assert(before.contains(before[i]));
                    assert(latency(us[before[k - 1]]) is None) by {
                        if i < k - 1 {
                            assert(latency(us[before[i]]) is None);
                        }
                    }
                } else {
                    let a = if i < k {
                        i
                    } else {
                        i - 1
                    };
                    let b = if j < k {
                        j
                    } else {
                        j - 1
                    };
                    assert(order[i] == before[a] && order[j] == before[b]);
                }
            }
        }
    }
}

/// Upstreams without any measurement go to the back of their tier, behind every
/// measured one, and keep config order among themselves.
pub proof fn law_unmeasured_go_last(
    affinity: Option<usize>,
    tiers: Seq<Seq<UpstreamSnapshot>>,
    t: int,
    p: int,
    q: int,
)
    requires
        distinct_indices(tiers),
        0 <= t < tiers.len(),
        usable_at(tiers[t], p),
        usable_at(tiers[t], q),
        tiers[t][q].narinfo_ms is None,
        tiers[t][q].probe_ms is None,
        tiers[t][p].narinfo_ms is Some || tiers[t][p].probe_ms is Some || p < q,
        affinity != Some(tiers[t][q].index),
    ensures
        precedes(planned(affinity, tiers), tiers[t][p].index, tiers[t][q].index),
{
    let us = tiers[t];
    let positions = ranking(us);
    lemma_ranking_lists_usable(us, us.len() as int);
    lemma_unmeasured_rank_last(us, us.len() as int);
    assert(positions.contains(p) && positions.contains(q));
    let a = choose|a: int| 0 <= a < positions.len() && positions[a] == p;
    let b = choose|b: int| 0 <= b < positions.len() && positions[b] == q;
    if b < a {
        assert(latency(us[positions[b]]) is None);
    }
    lemma_ranked_earlier(affinity, tiers, t, a, b);
}

/// Whether all that a plan depends on is the same of two upstreams.
pub open spec fn ranks_alike(u: UpstreamSnapshot, v: UpstreamSnapshot) -> bool {
    u.index == v.index && down(u) == down(v) && latency(u) == latency(v)
}

/// Whether all that a plan depends on is the same of two tiers.
pub open spec fn tier_alike(us: Seq<UpstreamSnapshot>, vs: Seq<UpstreamSnapshot>) -> bool {
    &&& us.len() == vs.len()
    &&& forall|j: int|
        #![trigger us[j]]
        #![trigger vs[j]]
        0 <= j < us.len() ==> ranks_alike(us[j], vs[j])
}

proof fn lemma_same_ahead_of(
    us: Seq<UpstreamSnapshot>,
    vs: Seq<UpstreamSnapshot>,
    order: Seq<int>,
    p: int,
)
    requires
        tier_alike(us, vs),
        0 <= p < us.len(),
        forall|i: int| 0 <= i < order.len() ==> 0 <= #[trigger] order[i] < us.len(),
    ensures
        ahead_of(us, order, p) == ahead_of(vs, order, p),
    decreases order.len(),
{
    if order.len() > 0 {
        let q = order.last();
        assert(q == order[order.len() - 1]);
        assert(ranks_alike(us[p], vs[p]) && ranks_alike(us[q], vs[q]));
        lemma_same_ahead_of(us, vs, order.drop_last(), p);
    }
}

proof fn lemma_same_ranking(us: Seq<UpstreamSnapshot>, vs: Seq<UpstreamSnapshot>, n: int)
    requires
        tier_alike(us, vs),
        0 <= n <= us.len(),
    ensures
        ranking_upto(us, n) == ranking_upto(vs, n),
    decreases n,
{
    if n > 0 {
        lemma_same_ranking(us, vs, n - 1);
        let before = ranking_upto(us, n - 1);
        lemma_ranking_lists_usable(us, n - 1);
        assert forall|i: int| 0 <= i < before.len() implies 0 <= #[trigger] before[i]
            < us.len() by {
            assert(before.contains(before[i]));
        }
        lemma_same_ahead_of(us, vs, before, n - 1);
        assert(ranks_alike(us[n - 1], vs[n - 1]));
    }
}

proof fn lemma_same_tier_order(
    tiers: Seq<Seq<UpstreamSnapshot>>,
    others: Seq<Seq<UpstreamSnapshot>>,
)
    requires
        tiers.len() == others.len(),
        forall|t: int| 0 <= t < tiers.len() ==> tier_alike(#[trigger] tiers[t], others[t]),
    ensures
        tier_order(tiers) == tier_order(others),
    decreases tiers.len(),
{
    if tiers.len() > 0 {
        let last = tiers.len() - 1;
        let us = tiers[last];
        let vs = others[last];
        assert forall|t: int| 0 <= t < tiers.drop_last().len() implies tier_alike(
            #[trigger] tiers.drop_last()[t],
            others.drop_last()[t],
        ) by {
            assert(tier_alike(tiers[t], others[t]));
        }
        lemma_same_tier_order(tiers.drop_last(), others.drop_last());
        assert(tier_alike(us, vs));
        lemma_same_ranking(us, vs, us.len() as int);
        lemma_ranking_lists_usable(us, us.len() as int);
        assert forall|i: int| 0 <= i < ranking(us).len() implies ranked_indices(us)[i]
            == ranked_indices(vs)[i] by {
            assert(ranking(us).contains(ranking(us)[i]));
            assert(ranks_alike(us[ranking(us)[i]], vs[ranking(us)[i]]));
        }
        assert(ranked_indices(us) == ranked_indices(vs));
    }
}

/// A plan depends on the remembered upstream, and of the others on their place,
/// their index, whether they are marked down, and the latency they are ranked
/// by. URLs, counters, throughput, the probe latency behind a narinfo latency,
/// and whether an upstream is known to be up or not known at all make no
/// difference.
pub proof fn law_plan_depends_on_rank_and_health(
    affinity: Option<usize>,
    tiers: Seq<Seq<UpstreamSnapshot>>,
    others: Seq<Seq<UpstreamSnapshot>>,
)
    requires
        tiers.len() == others.len(),
        forall|t: int| 0 <= t < tiers.len() ==> tier_alike(#[trigger] tiers[t], others[t]),
    ensures
        planned(affinity, tiers) == planned(affinity, others),
{
    lemma_same_tier_order(tiers, others);
    if affinity is Some {
        let index = affinity->0;
        if marked_down(tiers, index) {
            let (t, j) = choose|t: int, j: int|
                #![trigger tiers[t][j]]
                0 <= t < tiers.len() && 0 <= j < tiers[t].len() && tiers[t][j].index == index
                    && down(tiers[t][j]);
            assert(tier_alike(tiers[t], others[t]));
            assert(ranks_alike(tiers[t][j], others[t][j]));
        }
        if marked_down(others, index) {
            let (t, j) = choose|t: int, j: int|
                #![trigger others[t][j]]
                0 <= t < others.len() && 0 <= j < others[t].len() && others[t][j].index == index
                    && down(others[t][j]);
            assert(tier_alike(tiers[t], others[t]));
            assert(ranks_alike(tiers[t][j], others[t][j]));
        }
    }
}

proof fn lemma_cold_tier(us: Seq<UpstreamSnapshot>)
    requires
        forall|j: int|
            0 <= j < us.len() ==> (#[trigger] us[j]).healthy is None && us[j].narinfo_ms is None
                && us[j].probe_ms is None,
    ensures
        ranked_indices(us) == us.map_values(|u: UpstreamSnapshot| u.index),
{
    let order = Seq::new(us.len(), |i: int| i);
    assert forall|p: int| #[trigger] order.contains(p) <==> 0 <= p < us.len() && !down(us[p]) by {
        if 0 <= p < us.len() {
            assert(order[p] == p);
        }
    }
    law_ranking_is_unique(us, order);
}

proof fn lemma_cold_tiers(tiers: Seq<Seq<UpstreamSnapshot>>)
    requires
        forall|t: int, j: int|
            #![trigger tiers[t][j]]
            0 <= t < tiers.len() && 0 <= j < tiers[t].len() ==> {
                &&& tiers[t][j].healthy is None
                &&& tiers[t][j].narinfo_ms is None
                &&& tiers[t][j].probe_ms is None
            },
    ensures
        tier_order(tiers) == config_order(tiers),
    decreases tiers.len(),
{
    if tiers.len() > 0 {
        let rest = tiers.drop_last();
        let us = tiers.last();
        assert forall|t: int, j: int|
            #![trigger rest[t][j]]
            0 <= t < rest.len() && 0 <= j < rest[t].len() implies {
            &&& rest[t][j].healthy is None
            &&& rest[t][j].narinfo_ms is None
            &&& rest[t][j].probe_ms is None
        } by {
            assert(rest[t][j] == tiers[t][j]);
        }
        lemma_cold_tiers(rest);
        assert forall|j: int| 0 <= j < us.len() implies (#[trigger] us[j]).healthy is None
            && us[j].narinfo_ms is None && us[j].probe_ms is None by {
            assert(us[j] == tiers[tiers.len() - 1][j]);
        }
        lemma_cold_tier(us);
    }
}

proof fn lemma_config_order_distinct(tiers: Seq<Seq<UpstreamSnapshot>>)
    requires
        distinct_indices(tiers),
    ensures
        config_order(tiers).no_duplicates(),
        forall|x: usize| #[trigger]
            config_order(tiers).contains(x) ==> exists|t: int, j: int|
                #![trigger tiers[t][j]]
                0 <= t < tiers.len() && 0 <= j < tiers[t].len() && tiers[t][j].index == x,
    decreases tiers.len(),
{
    if tiers.len() > 0 {
        let rest = tiers.drop_last();
        let us = tiers.last();
        let n = tiers.len() - 1;
        assert forall|t: int, j: int|
            0 <= t < rest.len() implies #[trigger] rest[t][j] == tiers[t][j] by {}
        assert(distinct_indices(rest));
        lemma_config_order_distinct(rest);
        let a = config_order(rest);
        let b = us.map_values(|u: UpstreamSnapshot| u.index);
        let all = config_order(tiers);
        assert(all == a + b);
        assert forall|j: int| 0 <= j < b.len() implies #[trigger] b[j] == tiers[n][j].index by {}
        assert forall|x: usize| #[trigger] all.contains(x) implies exists|t: int, j: int|
            #![trigger tiers[t][j]]
            0 <= t < tiers.len() && 0 <= j < tiers[t].len() && tiers[t][j].index == x by {
            let i = choose|i: int| 0 <= i < all.len() && all[i] == x;
            if i < a.len() {
                assert(a[i] == x);
                assert(a.contains(x));
                let (t, j) = choose|t: int, j: int|
                    #![trigger rest[t][j]]
                    0 <= t < rest.len() && 0 <= j < rest[t].len() && rest[t][j].index == x;
                assert(tiers[t][j].index == x);
            } else {
                assert(tiers[n][i - a.len()].index == x);
            }
        }
        assert forall|i: int, k: int| 0 <= i < k < all.len() implies all[i] != all[k] by {
            if k < a.len() {
                assert(a[i] != a[k]);
            } else if i < a.len() {
                assert(a.contains(a[i]));
                let (t, j) = choose|t: int, j: int|
                    #![trigger rest[t][j]]
                    0 <= t < rest.len() && 0 <= j < rest[t].len() && rest[t][j].index == a[i];
                assert(tiers[t][j].index == a[i]);
                assert(b[k - a.len()] == tiers[n][k - a.len()].index);
            } else {
                assert(tiers[n][i - a.len()].index != tiers[n][k - a.len()].index);
            }
        }
    }
}

/// A cold start follows config order: with no health verdict and no
/// measurement anywhere, the plan lists the tiers as configured.
pub proof fn law_cold_start_follows_config_order(tiers: Seq<Seq<UpstreamSnapshot>>)
    requires
        distinct_indices(tiers),
        forall|t: int, j: int|
            #![trigger tiers[t][j]]
            0 <= t < tiers.len() && 0 <= j < tiers[t].len() ==> {
                &&& tiers[t][j].healthy is None
                &&& tiers[t][j].narinfo_ms is None
                &&& tiers[t][j].probe_ms is None
            },
    ensures
        planned(None, tiers) == config_order(tiers),
{
    lemma_cold_tiers(tiers);
    lemma_config_order_distinct(tiers);
    assert(preferred(None, tiers) + tier_order(tiers) == config_order(tiers));
    lemma_no_repeats_kept(config_order(tiers));
}

/// Whether the upstream `u` at place `p` of a tier goes before `v` at place `q`.
/// Narinfo latency decides, and the probe latency stands in where there is none;
/// any latency goes before none; and where that does not decide, the place does.
pub open spec fn goes_first(u: UpstreamSnapshot, p: int, v: UpstreamSnapshot, q: int) -> bool {
    match (u.narinfo_ms, u.probe_ms, v.narinfo_ms, v.probe_ms) {
        (Some(a), _, Some(b), _) => a.less(b) || !b.less(a) && p < q,
        (Some(a), _, None, Some(b)) => a.less(b) || !b.less(a) && p < q,
        (None, Some(a), Some(b), _) => a.less(b) || !b.less(a) && p < q,
        (None, Some(a), None, Some(b)) => a.less(b) || !b.less(a) && p < q,
        (None, None, None, None) => p < q,
        (None, None, _, _) => false,
        (_, _, None, None) => true,
    }
}

/// Whether going first does not run in circles among the upstreams of a tier that
/// are not marked down.
pub open spec fn no_circles(us: Seq<UpstreamSnapshot>) -> bool {
    forall|p: int, q: int, r: int|
        #![trigger us[p], us[q], us[r]]
        0 <= p < us.len() && 0 <= q < us.len() && 0 <= r < us.len() && us[p].healthy != Some(false)
            && us[q].healthy != Some(false) && us[r].healthy != Some(false) && goes_first(
            us[p],
            p,
            us[q],
            q,
        ) && goes_first(us[q], q, us[r], r) ==> goes_first(us[p], p, us[r], r)
}

/// Whether every latency that the upstreams of a tier are ranked by is a number.
pub open spec fn latencies_are_numbers(us: Seq<UpstreamSnapshot>) -> bool {
    forall|p: int|
        #![trigger us[p]]
        0 <= p < us.len() && us[p].healthy != Some(false) ==> {
            &&& us[p].narinfo_ms matches Some(ms) ==> ms.is_number()
            &&& us[p].narinfo_ms is None ==> (us[p].probe_ms matches Some(ms) ==> ms.is_number())
        }
}

proof fn lemma_goes_first(us: Seq<UpstreamSnapshot>, p: int, q: int)
    requires
        p != q,
    ensures
        goes_first(us[p], p, us[q], q) <==> ranks_no_later(us, p, q),
{
}

proof fn lemma_no_circles(us: Seq<UpstreamSnapshot>)
    requires
        no_circles(us),
    ensures
        sortable(us),
{
    assert forall|p: int, q: int, r: int|
        usable_at(us, p) && usable_at(us, q) && usable_at(us, r) && #[trigger] ranks_no_later(
            us,
            p,
            q,
        ) && #[trigger] ranks_no_later(us, q, r) implies ranks_no_later(us, p, r) by {
        if p != q && q != r && p != r {
            lemma_goes_first(us, p, q);
            lemma_goes_first(us, q, r);
            lemma_goes_first(us, p, r);
            assert(goes_first(us[p], p, us[r], r));
        }
    }
}

/// Where every latency is a number, going first does not run in circles.
pub proof fn law_numbers_do_not_circle(us: Seq<UpstreamSnapshot>)
    requires
        latencies_are_numbers(us),
    ensures
        no_circles(us),
{
}

/// Whether some upstream of index `y` is marked down.
pub open spec fn some_down(input: SelectionInput, y: usize) -> bool {
    exists|s: int, q: int|
        #![trigger input.tiers@[s].upstreams@[q]]
        0 <= s < input.tiers@.len() && 0 <= q < input.tiers@[s].upstreams@.len()
            && input.tiers@[s].upstreams@[q].index == y && input.tiers@[s].upstreams@[q].healthy
            == Some(false)
}

/// Whether some upstream of index `y` is not marked down.
pub open spec fn some_up(input: SelectionInput, y: usize) -> bool {
    exists|s: int, q: int|
        #![trigger input.tiers@[s].upstreams@[q]]
        0 <= s < input.tiers@.len() && 0 <= q < input.tiers@[s].upstreams@.len()
            && input.tiers@[s].upstreams@[q].index == y && input.tiers@[s].upstreams@[q].healthy
            != Some(false)
}

proof fn lemma_ups_and_downs(input: SelectionInput, y: usize)
    ensures
        some_up(input, y) <==> usable(tier_views(input.tiers@), y),
        some_down(input, y) <==> marked_down(tier_views(input.tiers@), y),
{
    let tiers = tier_views(input.tiers@);
    assert forall|s: int, q: int|
        #![trigger tiers[s][q]]
        #![trigger input.tiers@[s].upstreams@[q]]
        0 <= s < tiers.len() implies tiers[s][q] == input.tiers@[s].upstreams@[q] by {}
    if some_up(input, y) {
        let (s, q) = choose|s: int, q: int|
            #![trigger input.tiers@[s].upstreams@[q]]
            0 <= s < input.tiers@.len() && 0 <= q < input.tiers@[s].upstreams@.len()
                && input.tiers@[s].upstreams@[q].index == y && input.tiers@[s].upstreams@[q].healthy
                != Some(false);
        assert(tiers[s][q].index == y);
    }
    if some_down(input, y) {
        let (s, q) = choose|s: int, q: int|
            #![trigger input.tiers@[s].upstreams@[q]]
            0 <= s < input.tiers@.len() && 0 <= q < input.tiers@[s].upstreams@.len()
                && input.tiers@[s].upstreams@[q].index == y && input.tiers@[s].upstreams@[q].healthy
                == Some(false);
        assert(tiers[s][q].index == y);
    }
    if usable(tiers, y) {
        let (s, q) = choose|s: int, q: int|
            #![trigger tiers[s][q]]
            0 <= s < tiers.len() && 0 <= q < tiers[s].len() && tiers[s][q].index == y && !down(
                tiers[s][q],
            );
        assert(input.tiers@[s].upstreams@[q].index == y);
    }
    if marked_down(tiers, y) {
        let (s, q) = choose|s: int, q: int|
            #![trigger tiers[s][q]]
            0 <= s < tiers.len() && 0 <= q < tiers[s].len() && tiers[s][q].index == y && down(
                tiers[s][q],
            );
        assert(input.tiers@[s].upstreams@[q].index == y);
    }
}

/// Who is in a plan: each index once, and exactly those that some upstream not
/// marked down has, or that is remembered and no upstream marked down has. The
/// remembered one, unless marked down, is the first.
pub proof fn law_who_is_planned(
    engine: DefaultEngine,
    input: SelectionInput,
    plan: Plan,
    index: usize,
)
    requires
        call_ensures(DefaultEngine::plan, (&engine, &input), plan),
    ensures
        plan.attempts@.no_duplicates(),
        plan.attempts@.contains(index) <==> some_up(input, index) || (input.affinity == Some(index)
            && !some_down(input, index)),
        input.affinity == Some(index) && !some_down(input, index) ==> plan.attempts@.len() > 0
            && plan.attempts@[0] == index,
{
    let tiers = tier_views(input.tiers@);
    lemma_ups_and_downs(input, index);
    law_each_attempt_once(input.affinity, tiers);
    law_plan_membership(input.affinity, tiers, index);
    if input.affinity == Some(index) && !some_down(input, index) {
        law_affinity_goes_first(index, tiers);
    }
}

/// In what order a plan goes: an upstream that is not marked down is tried before
/// index `y`, if whatever is not marked down and has that index stands in a later
/// tier, or in the same tier and the first goes before it. Only the remembered
/// upstream may jump ahead.
pub proof fn law_who_goes_before(
    engine: DefaultEngine,
    input: SelectionInput,
    plan: Plan,
    t: int,
    p: int,
    y: usize,
)
    requires
        call_ensures(DefaultEngine::plan, (&engine, &input), plan),
        0 <= t < input.tiers@.len(),
        0 <= p < input.tiers@[t].upstreams@.len(),
        input.tiers@[t].upstreams@[p].healthy != Some(false),
        some_up(input, y),
        forall|s: int, q: int|
            #![trigger input.tiers@[s].upstreams@[q]]
            0 <= s < input.tiers@.len() && 0 <= q < input.tiers@[s].upstreams@.len()
                && input.tiers@[s].upstreams@[q].index == y && input.tiers@[s].upstreams@[q].healthy
                != Some(false) ==> s > t || s == t && no_circles(input.tiers@[t].upstreams@)
                && goes_first(
                input.tiers@[t].upstreams@[p],
                p,
                input.tiers@[s].upstreams@[q],
                q,
            ),
        input.affinity != Some(y) || some_down(input, y),
    ensures
        precedes(plan.attempts@, input.tiers@[t].upstreams@[p].index, y),
{
    let tiers = tier_views(input.tiers@);
    let us = tiers[t];
    let positions = ranking(us);
    lemma_ups_and_downs(input, y);
    lemma_ranking_lists_usable(us, us.len() as int);
    assert(us[p] == input.tiers@[t].upstreams@[p]);
    assert(positions.contains(p));
    let a = choose|a: int| 0 <= a < positions.len() && positions[a] == p;
    let head = tiers.take(t);
    assert(!usable(head, y)) by {
        if usable(head, y) {
            let (s, j) = choose|s: int, j: int|
                #![trigger head[s][j]]
                0 <= s < head.len() && 0 <= j < head[s].len() && head[s][j].index == y
                    && !down(head[s][j]);
            assert(input.tiers@[s].upstreams@[j] == head[s][j]);
        }
    }
    assert forall|c: int| 0 <= c <= a implies us[#[trigger] positions[c]].index != y by {
        let q = positions[c];
        assert(positions.contains(q));
        if us[q].index == y {
            assert(input.tiers@[t].upstreams@[q] == us[q]);
            assert(goes_first(us[p], p, us[q], q));
            assert(q != p);
            lemma_no_circles(us);
            law_ranking_is_stable_sort(us);
            lemma_goes_first(us, p, q);
            assert(ranks_no_later(us, positions[c], positions[a]));
        }
    }
    if preferred(input.affinity, tiers).contains(y) {
        let i = choose|i: int|
            0 <= i < preferred(input.affinity, tiers).len() && preferred(input.affinity, tiers)[i]
                == y;
    }
    lemma_goes_before(input.affinity, tiers, t, a, y);
}

/// Whether place `q` of tier `t` is the only one whose upstream has its index and
/// is not marked down.
pub open spec fn stands_alone(input: SelectionInput, t: int, q: int) -> bool {
    forall|s: int, j: int|
        #![trigger input.tiers@[s].upstreams@[j]]
        0 <= s < input.tiers@.len() && 0 <= j < input.tiers@[s].upstreams@.len()
            && input.tiers@[s].upstreams@[j].index == input.tiers@[t].upstreams@[q].index
            && input.tiers@[s].upstreams@[j].healthy != Some(false) ==> s == t && j == q
}

/// Within a tier, of two upstreams that both have served narinfos the one with
/// the lower narinfo latency is tried first, whatever their probe latencies.
pub proof fn law_lower_narinfo_latency_goes_first(
    engine: DefaultEngine,
    input: SelectionInput,
    plan: Plan,
    t: int,
    p: int,
    q: int,
)
    requires
        call_ensures(DefaultEngine::plan, (&engine, &input), plan),
        0 <= t < input.tiers@.len(),
        0 <= p < input.tiers@[t].upstreams@.len(),
        0 <= q < input.tiers@[t].upstreams@.len(),
        input.tiers@[t].upstreams@[p].healthy != Some(false),
        input.tiers@[t].upstreams@[q].healthy != Some(false),
        stands_alone(input, t, q),
        latencies_are_numbers(input.tiers@[t].upstreams@),
        input.tiers@[t].upstreams@[p].narinfo_ms is Some,
        input.tiers@[t].upstreams@[q].narinfo_ms is Some,
        (input.tiers@[t].upstreams@[p].narinfo_ms->0).less(
            input.tiers@[t].upstreams@[q].narinfo_ms->0,
        ),
        input.affinity != Some(input.tiers@[t].upstreams@[q].index),
    ensures
        precedes(
            plan.attempts@,
            input.tiers@[t].upstreams@[p].index,
            input.tiers@[t].upstreams@[q].index,
        ),
{
    law_numbers_do_not_circle(input.tiers@[t].upstreams@);
    law_who_goes_before(engine, input, plan, t, p, input.tiers@[t].upstreams@[q].index);
}

/// The probe latency stands in where no narinfo was served, on either side of the
/// comparison, and only there.
pub proof fn law_probe_latency_stands_in(
    engine: DefaultEngine,
    input: SelectionInput,
    plan: Plan,
    t: int,
    p: int,
    q: int,
    a: Measure,
    b: Measure,
)
    requires
        call_ensures(DefaultEngine::plan, (&engine, &input), plan),
        0 <= t < input.tiers@.len(),
        0 <= p < input.tiers@[t].upstreams@.len(),
        0 <= q < input.tiers@[t].upstreams@.len(),
        input.tiers@[t].upstreams@[p].healthy != Some(false),
        input.tiers@[t].upstreams@[q].healthy != Some(false),
        stands_alone(input, t, q),
        latencies_are_numbers(input.tiers@[t].upstreams@),
        input.tiers@[t].upstreams@[p].narinfo_ms == Some(a)
            || input.tiers@[t].upstreams@[p].narinfo_ms is None
            && input.tiers@[t].upstreams@[p].probe_ms == Some(a),
        input.tiers@[t].upstreams@[q].narinfo_ms == Some(b)
            || input.tiers@[t].upstreams@[q].narinfo_ms is None
            && input.tiers@[t].upstreams@[q].probe_ms == Some(b),
        a.less(b) || !b.less(a) && p < q,
        input.affinity != Some(input.tiers@[t].upstreams@[q].index),
    ensures
        precedes(
            plan.attempts@,
            input.tiers@[t].upstreams@[p].index,
            input.tiers@[t].upstreams@[q].index,
        ),
{
    law_numbers_do_not_circle(input.tiers@[t].upstreams@);
    law_who_goes_before(engine, input, plan, t, p, input.tiers@[t].upstreams@[q].index);
}

} // verus!
