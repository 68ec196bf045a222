//! The HTTP surface: what is answered, what is forwarded, and how an upstream
//! response is relayed. Read-only, and bodies pass through unmodified.
use crate::config::Strategy;
use crate::fetch::{
    law_target_is_below_base, target_url, upstream_url, verdict, verdict_of, Outcome, Verdict,
};
use crate::narinfo::{named_nar, narinfo_url_field};
use crate::probe::Prober;
use crate::select::{
    planned, tier_views, Plan, RequestKind, SelectionEngine, SelectionInput, TierInput,
};
use crate::state::{
    only_upstream_changed, takes_sample, Registry, RegistryView, Sample, UpstreamSnapshot,
};
use crate::text::{
    count_value, ends_with, law_count_value_is_what_the_digits_spell, lemma_without_leading_slashes,
    parse_count, place_value, same_text, starts_with, trim_leading_slashes, without_leading_slashes,
};
use vstd::prelude::*;
use vstd::string::*;

verus! {

/// Request methods, as far as they matter.
#[derive(Debug, Clone, Copy, PartialEq, Eq, Structural)]
pub enum Method {
    Get,
    Head,
    Other,
}

/// A response header.
#[derive(Debug)]
pub struct Header {
    pub name: String,
    pub value: String,
}

impl View for Header {
    type V = (Seq<char>, Seq<char>);

    open spec fn view(&self) -> (Seq<char>, Seq<char>) {
        (self.name@, self.value@)
    }
}

/// The body of an answer.
#[derive(Debug)]
pub enum Body {
    Empty,
    /// Plain text written here.
    Text(String),
    /// Bytes from an upstream.
    Data(Vec<u8>),
}

pub enum BodyView {
    Empty,
    Text(Seq<char>),
    Data(Seq<u8>),
}

impl View for Body {
    type V = BodyView;

    open spec fn view(&self) -> BodyView {
        match self {
            Body::Empty => BodyView::Empty,
            Body::Text(text) => BodyView::Text(text@),
            Body::Data(data) => BodyView::Data(data@),
        }
    }
}

/// An answer to a client.
#[derive(Debug)]
pub struct Reply {
    pub code: u16,
    pub headers: Vec<Header>,
    pub body: Body,
}

#[verifier::ext_equal]
pub struct ReplyView {
    pub code: u16,
    pub headers: Seq<(Seq<char>, Seq<char>)>,
    pub body: BodyView,
}

pub open spec fn header_views(headers: Seq<Header>) -> Seq<(Seq<char>, Seq<char>)> {
    headers.map_values(|h: Header| h@)
}

impl View for Reply {
    type V = ReplyView;

    open spec fn view(&self) -> ReplyView {
        ReplyView {
            code: self.code,
            headers: header_views(self.headers@),
            body: self.body@,
        }
    }
}

/// A plain-text answer.
pub open spec fn text_reply(code: u16, body: Seq<char>) -> ReplyView {
    ReplyView { code, headers: Seq::empty(), body: BodyView::Text(body) }
}

/// A plain-text answer.
pub fn text(code: u16, body: &str) -> (r: Reply)
    ensures
        r@ == text_reply(code, body@),
{
    let r = Reply { code, headers: Vec::new(), body: Body::Text(body.to_owned()) };
    assert(r@.headers == Seq::<(Seq<char>, Seq<char>)>::empty());
    r
}

/// What to do with a request.
#[derive(Debug)]
pub enum Dispatch {
    /// Answer at once.
    Answer(Reply),
    /// Answer with a status report.
    Status,
    /// Ask the upstreams, for headers only where `head` is set.
    Forward { kind: RequestKind, head: bool },
}

pub enum DispatchView {
    Answer(ReplyView),
    Status,
    Forward { kind: RequestKind, head: bool },
}

impl View for Dispatch {
    type V = DispatchView;

    open spec fn view(&self) -> DispatchView {
        match self {
            Dispatch::Answer(reply) => DispatchView::Answer(reply@),
            Dispatch::Status => DispatchView::Status,
            Dispatch::Forward { kind, head } => DispatchView::Forward { kind: *kind, head: *head },
        }
    }
}

/// What a `GET` or, with `head` set, a `HEAD` of a path gets.
pub open spec fn route(head: bool, path: Seq<char>) -> DispatchView {
    if path == "/nix-cache-info"@ {
        DispatchView::Answer(
            text_reply(200, "StoreDir: /nix/store\nWantMassQuery: 1\nPriority: 10\n"@),
        )
    } else if path == "/status"@ {
        DispatchView::Status
    } else if ".narinfo"@.is_suffix_of(path) {
        DispatchView::Forward { kind: RequestKind::Narinfo, head }
    } else if "/nar/"@.is_prefix_of(path) {
        DispatchView::Forward { kind: RequestKind::Nar, head }
    } else {
        DispatchView::Answer(text_reply(404, "not found"@))
    }
}

/// What a request gets: only `GET` and `HEAD` are served.
pub open spec fn dispatch(method: Method, path: Seq<char>) -> DispatchView {
    match method {
        Method::Other => DispatchView::Answer(text_reply(405, "sito is read-only"@)),
        Method::Get => route(false, path),
        Method::Head => route(true, path),
    }
}

/// Decides what to do with a request.
pub fn handle(method: Method, path: &str) -> (d: Dispatch)
    ensures
        d@ == dispatch(method, path@),
{
    let head = method == Method::Head;
    if method == Method::Other {
        Dispatch::Answer(text(405, "sito is read-only"))
    } else if same_text(path, "/nix-cache-info") {
        Dispatch::Answer(text(200, "StoreDir: /nix/store\nWantMassQuery: 1\nPriority: 10\n"))
    } else if same_text(path, "/status") {
        Dispatch::Status
    } else if ends_with(path, ".narinfo") {
        Dispatch::Forward { kind: RequestKind::Narinfo, head }
    } else if starts_with(path, "/nar/") {
        Dispatch::Forward { kind: RequestKind::Nar, head }
    } else {
        Dispatch::Answer(text(404, "not found"))
    }
}

/// Static tier shape from config: which upstream indices belong to which tier,
/// in order.
#[derive(Debug)]
pub struct TierShape {
    pub strategy: Strategy,
    pub indices: Vec<usize>,
}

/// The running state of the proxy.
pub struct App {
    pub registry: Registry,
    pub tiers: Vec<TierShape>,
    pub prober: Prober,
}

/// The upstreams of each tier, as the registry has them.
pub open spec fn tiers_now(shapes: Seq<TierShape>, upstreams: Seq<UpstreamSnapshot>) -> Seq<
    Seq<UpstreamSnapshot>,
> {
    shapes.map_values(
        |shape: TierShape| shape.indices@.map_values(|i: usize| upstreams[i as int]),
    )
}

/// The remembered upstream that counts for a request: only a NAR has one.
pub open spec fn affinity_for(registry: RegistryView, kind: RequestKind, path: Seq<char>) -> Option<
    usize,
> {
    match kind {
        RequestKind::Nar => registry.remembered(without_leading_slashes(path)),
        RequestKind::Narinfo => None,
    }
}

/// Whether some tier lists upstream `index`.
pub open spec fn listed(shapes: Seq<TierShape>, index: int) -> bool {
    exists|t: int, j: int|
        #![trigger shapes[t].indices@[j]]
        0 <= t < shapes.len() && 0 <= j < shapes[t].indices@.len() && shapes[t].indices@[j]
            == index
}

impl App {
    /// Every tier speaks of registered upstreams.
    pub open spec fn tiers_registered(self) -> bool {
        forall|t: int, j: int|
            #![trigger self.tiers@[t].indices@[j]]
            0 <= t < self.tiers@.len() && 0 <= j < self.tiers@[t].indices@.len()
                ==> self.tiers@[t].indices@[j] < self.registry@.upstreams.len()
    }

    /// Every remembered upstream is registered.
    pub open spec fn affinity_registered(self) -> bool {
        forall|path: Seq<char>| #[trigger]
            self.registry@.affinity.contains_key(path) ==> self.registry@.affinity[path]
                < self.registry@.upstreams.len()
    }

    /// Every registered upstream belongs to one tier, at one place, in config
    /// order, and knows which tier.
    pub open spec fn numbered(self) -> bool {
        &&& forall|t: int, j: int|
            #![trigger self.tiers@[t].indices@[j]]
            0 <= t < self.tiers@.len() && 0 <= j < self.tiers@[t].indices@.len()
                ==> self.registry@.upstreams[self.tiers@[t].indices@[j] as int].tier == t
        &&& forall|t1: int, j1: int, t2: int, j2: int|
            #![trigger self.tiers@[t1].indices@[j1], self.tiers@[t2].indices@[j2]]
            0 <= t1 < self.tiers@.len() && 0 <= j1 < self.tiers@[t1].indices@.len() && 0 <= t2
                < self.tiers@.len() && 0 <= j2 < self.tiers@[t2].indices@.len()
                && self.tiers@[t1].indices@[j1] == self.tiers@[t2].indices@[j2] ==> t1 == t2 && j1
                == j2
        &&& forall|t: int, j1: int, j2: int|
            #![trigger self.tiers@[t].indices@[j1], self.tiers@[t].indices@[j2]]
            0 <= t < self.tiers@.len() && 0 <= j1 < j2 < self.tiers@[t].indices@.len()
                ==> self.tiers@[t].indices@[j1] < self.tiers@[t].indices@[j2]
        &&& forall|i: int|
            0 <= i < self.registry@.upstreams.len() ==> #[trigger] listed(self.tiers@, i)
    }

    pub open spec fn wf(self) -> bool {
        &&& self.registry.wf()
        &&& self.tiers_registered()
        &&& self.numbered()
        &&& self.affinity_registered()
    }

    /// The plan of the built-in rules for a request.
    pub open spec fn default_plan(self, kind: RequestKind, path: Seq<char>) -> Seq<usize> {
        planned(
            affinity_for(self.registry@, kind, path),
            tiers_now(self.tiers@, self.registry@.upstreams),
        )
    }

    /// What a selection engine is told of a request.
    pub open spec fn describes(
        self,
        kind: RequestKind,
        path: Seq<char>,
        input: SelectionInput,
    ) -> bool {
        &&& input.kind == kind
        &&& input.path@ == path
        &&& input.affinity == affinity_for(self.registry@, kind, path)
        &&& tier_views(input.tiers@) == tiers_now(self.tiers@, self.registry@.upstreams)
        &&& forall|t: int|
            0 <= t < input.tiers@.len() ==> (#[trigger] input.tiers@[t]).strategy
                == self.tiers@[t].strategy
    }
}

/// Gathers what a selection engine is told of a request.
pub fn selection_input(app: &App, kind: RequestKind, path: &str) -> (input: SelectionInput)
    requires
        app.tiers_registered(),
    ensures
        app.describes(kind, path@, input),
{
    let affinity = match kind {
        RequestKind::Nar => app.registry.affinity(trim_leading_slashes(path)),
        RequestKind::Narinfo => None,
    };
    let ghost now = tiers_now(app.tiers@, app.registry@.upstreams);
    let mut tiers: Vec<TierInput> = Vec::new();
    let mut t: usize = 0;
    while t < app.tiers.len()
        invariant
            t <= app.tiers@.len(),
            app.tiers_registered(),
            now == tiers_now(app.tiers@, app.registry@.upstreams),
            tiers@.len() == t,
            tier_views(tiers@) == now.take(t as int),
            forall|k: int|
                0 <= k < tiers@.len() ==> (#[trigger] tiers@[k]).strategy == app.tiers@[k].strategy,
        decreases app.tiers@.len() - t,
    {
        let shape = &app.tiers[t];
        let mut upstreams: Vec<UpstreamSnapshot> = Vec::new();
        let mut j: usize = 0;
        while j < shape.indices.len()
            invariant
                t < app.tiers@.len(),
                shape == &app.tiers@[t as int],
                j <= shape.indices@.len(),
                app.tiers_registered(),
                now == tiers_now(app.tiers@, app.registry@.upstreams),
                upstreams@ == now[t as int].take(j as int),
            decreases shape.indices@.len() - j,
        {
            let index: usize = shape.indices[j];
            assert(app.tiers@[t as int].indices@[j as int] == index);
            upstreams.push(app.registry.get(index).clone());
            assert(upstreams@ == now[t as int].take(j + 1));
            j = j + 1;
        }
        assert(now[t as int].take(j as int) == now[t as int]);
        let ghost before = tiers@;
        tiers.push(TierInput { strategy: shape.strategy, upstreams });
        assert(tier_views(tiers@) == now.take(t + 1)) by {
            assert(tier_views(tiers@) == tier_views(before).push(now[t as int]));
        }
        t = t + 1;
    }
    assert(now.take(t as int) == now);
    SelectionInput { kind, path: path.to_owned(), affinity, tiers }
}

/// How a forwarded request stands.
pub struct ForwardView {
    pub kind: RequestKind,
    pub head: bool,
    pub path: Seq<char>,
    pub attempts: Seq<usize>,
    /// How many attempts are over.
    pub tried: int,
}

/// A request on its way through the upstreams of its plan.
#[derive(Debug)]
pub struct Forward {
    kind: RequestKind,
    head: bool,
    path: String,
    attempts: Vec<usize>,
    tried: usize,
}

impl View for Forward {
    type V = ForwardView;

    closed spec fn view(&self) -> ForwardView {
        ForwardView {
            kind: self.kind,
            head: self.head,
            path: self.path@,
            attempts: self.attempts@,
            tried: self.tried as int,
        }
    }
}

/// Begins to forward a request along the plan of a selection engine.
pub fn forward<E: SelectionEngine>(
    app: &App,
    engine: &E,
    kind: RequestKind,
    head: bool,
    path: &str,
) -> (walk: Forward)
    requires
        app.tiers_registered(),
    ensures
        walk@.kind == kind,
        walk@.head == head,
        walk@.path == path@,
        walk@.tried == 0,
        exists|input: SelectionInput, plan: Plan|
            app.describes(kind, path@, input) && #[trigger] call_ensures(
                E::plan,
                (engine, &input),
                plan,
            ) && walk@.attempts == plan.attempts@,
{
    let input = selection_input(app, kind, path);
    let plan = engine.plan(&input);
    Forward { kind, head, path: path.to_owned(), attempts: plan.attempts, tried: 0 }
}

/// One call to make.
#[derive(Debug)]
pub struct Fetch {
    pub index: usize,
    pub url: String,
    /// Ask for headers only.
    pub head: bool,
    pub kind: RequestKind,
}

/// A request after the outcome of its current attempt: a hit stays where it
/// is, anything else moves on.
pub open spec fn moved_on(walk: ForwardView, outcome: Outcome) -> ForwardView {
    if verdict_of(outcome) == Verdict::Hit {
        walk
    } else {
        ForwardView { tried: walk.tried + 1, ..walk }
    }
}

/// An upstream after the outcome of an attempt at it.
pub open spec fn recorded(
    u: UpstreamSnapshot,
    kind: RequestKind,
    outcome: Outcome,
    narinfo_ms: Sample,
) -> UpstreamSnapshot {
    match verdict_of(outcome) {
        Verdict::Hit => match kind {
            RequestKind::Narinfo => u.with_narinfo_hit(narinfo_ms),
            RequestKind::Nar => u.with_hit(),
        },
        Verdict::Miss => u.with_miss(),
        Verdict::Error => u.with_error(),
    }
}

/// The answer to a request that no attempt of its plan could serve: known once
/// the plan is exhausted, and at once where it was empty.
pub open spec fn exhausted_answer(walk: ForwardView) -> Option<ReplyView> {
    if walk.tried >= walk.attempts.len() {
        Some(text_reply(404, "no upstream has this path"@))
    } else {
        None
    }
}

/// Whether the counter that an outcome goes into can take one more.
pub open spec fn recordable(u: UpstreamSnapshot, outcome: Outcome) -> bool {
    match verdict_of(outcome) {
        Verdict::Hit => u.hits < u64::MAX,
        Verdict::Miss => u.misses < u64::MAX,
        Verdict::Error => u.errors < u64::MAX,
    }
}

impl Forward {
    /// The upstream to try next, or nothing when the plan is exhausted.
    pub fn next_index(&self) -> (r: Option<usize>)
        ensures
            r == (if self@.tried < self@.attempts.len() {
                Some(self@.attempts[self@.tried])
            } else {
                None
            }),
    {
        if self.tried < self.attempts.len() {
            Some(self.attempts[self.tried])
        } else {
            None
        }
    }

    /// The answer to the client when every upstream of the plan missed or failed,
    /// or the plan was empty; nothing while there is one left to try or to relay
    /// from.
    pub fn answer(&self) -> (r: Option<Reply>)
        ensures
            r is Some <==> self@.tried >= self@.attempts.len(),
            r is Some <==> exhausted_answer(self@) is Some,
            r matches Some(reply) ==> exhausted_answer(self@) == Some(reply@),
    {
        if self.tried < self.attempts.len() {
            None
        } else {
            Some(text(404, "no upstream has this path"))
        }
    }

    /// The call to make next, or nothing when the plan is exhausted. The path
    /// goes to the upstream verbatim.
    pub fn fetch(&self, registry: &Registry) -> (r: Option<Fetch>)
        requires
            self@.tried < self@.attempts.len() ==> self@.attempts[self@.tried]
                < registry@.upstreams.len(),
        ensures
            r is Some <==> self@.tried < self@.attempts.len(),
            r matches Some(fetch) ==> {
                &&& fetch.index == self@.attempts[self@.tried]
                &&& fetch.url@ == target_url(
                    registry@.upstreams[fetch.index as int].url@,
                    self@.path,
                )
                &&& fetch.head == self@.head
                &&& fetch.kind == self@.kind
            },
    {
        match self.next_index() {
            Some(index) => {
                let base = registry.url(index);
                Some(
                    Fetch {
                        index,
                        url: upstream_url(&base, &self.path),
                        head: self.head,
                        kind: self.kind,
                    },
                )
            },
            None => None,
        }
    }

    /// Records the outcome of the call just made. A hit is to be relayed; a
    /// miss moves on to the next upstream; an error marks the upstream down,
    /// kicks a probe pass and moves on.
    pub fn settle(&mut self, app: &mut App, outcome: Outcome, narinfo_ms: Sample) -> (v: Verdict)
        requires
            old(self)@.tried < old(self)@.attempts.len(),
            old(self)@.attempts[old(self)@.tried] < old(app).registry@.upstreams.len(),
            recordable(
                old(app).registry@.upstreams[old(self)@.attempts[old(self)@.tried] as int],
                outcome,
            ),
        ensures
            v == verdict_of(outcome),
            final(self)@ == moved_on(old(self)@, outcome),
            ({
                let index = old(self)@.attempts[old(self)@.tried] as int;
                final(app).registry@ == old(app).registry@.with(
                    index,
                    recorded(
                        old(app).registry@.upstreams[index],
                        old(self)@.kind,
                        outcome,
                        narinfo_ms,
                    ),
                )
            }),
            final(app).tiers == old(app).tiers,
            final(app).prober.wants_pass() == (old(app).prober.wants_pass() || v == Verdict::Error),
            old(app).wf() ==> final(app).wf(),
    {
        assert(self.tried < self.attempts.len());
        let index: usize = self.attempts[self.tried];
        let v = verdict(outcome);
        match v {
            Verdict::Hit => {
                match self.kind {
                    RequestKind::Narinfo => app.registry.record_narinfo_hit(index, narinfo_ms),
                    RequestKind::Nar => app.registry.record_hit(index),
                }
            },
            Verdict::Miss => {
                app.registry.record_miss(index);
                self.tried = self.tried + 1;
            },
            Verdict::Error => {
                app.registry.record_error(index);
                app.prober.kick();
                self.tried = self.tried + 1;
            },
        }
        v
    }
}

/// What an upstream's response headers say, as far as they are passed on: a
/// value that is not plain text counts as absent.
#[derive(Debug)]
pub struct UpstreamHead {
    pub content_type: Option<String>,
    pub content_length: Option<String>,
}

/// How a header that may be absent is passed on.
pub open spec fn copied_header(name: Seq<char>, value: Option<String>) -> Seq<
    (Seq<char>, Seq<char>),
> {
    match value {
        Some(value) => seq![(name, value@)],
        None => Seq::empty(),
    }
}

/// The headers that are passed on: content type and content length only.
pub open spec fn copied_headers(upstream: UpstreamHead) -> Seq<(Seq<char>, Seq<char>)> {
    copied_header("Content-Type"@, upstream.content_type) + copied_header(
        "Content-Length"@,
        upstream.content_length,
    )
}

/// The length that an upstream announces, if it can be read.
pub open spec fn announced_length(upstream: UpstreamHead) -> Option<usize> {
    match upstream.content_length {
        Some(value) => count_value(value@),
        None => None,
    }
}

/// How many bytes of a narinfo body are read at most.
pub const NARINFO_LIMIT: u64 = 1_048_576;

/// How to relay a hit.
#[derive(Debug)]
pub enum Relay {
    /// Answer at once.
    Answer(Reply),
    /// Read the narinfo body, at most `limit` bytes of it, then finish with
    /// [`finish_narinfo`].
    Buffer { headers: Vec<Header>, limit: u64 },
    /// Stream the body through, with a length or in chunks.
    Stream { code: u16, headers: Vec<Header>, len: Option<usize>, chunked: bool },
}

pub enum RelayView {
    Answer(ReplyView),
    Buffer { headers: Seq<(Seq<char>, Seq<char>)>, limit: u64 },
    Stream { code: u16, headers: Seq<(Seq<char>, Seq<char>)>, len: Option<usize>, chunked: bool },
}

impl View for Relay {
    type V = RelayView;

    open spec fn view(&self) -> RelayView {
        match self {
            Relay::Answer(reply) => RelayView::Answer(reply@),
            Relay::Buffer { headers, limit } => RelayView::Buffer {
                headers: header_views(headers@),
                limit: *limit,
            },
            Relay::Stream { code, headers, len, chunked } => RelayView::Stream {
                code: *code,
                headers: header_views(headers@),
                len: *len,
                chunked: *chunked,
            },
        }
    }
}

/// How a hit is relayed: headers only for a `HEAD`, a narinfo buffered, a NAR
/// streamed, in chunks where its length is not known.
pub open spec fn relayed(kind: RequestKind, head: bool, upstream: UpstreamHead) -> RelayView {
    let headers = copied_headers(upstream);
    if head {
        RelayView::Answer(ReplyView { code: 200, headers, body: BodyView::Empty })
    } else {
        match kind {
            RequestKind::Narinfo => RelayView::Buffer { headers, limit: NARINFO_LIMIT },
            RequestKind::Nar => RelayView::Stream {
                code: 200,
                headers,
                len: announced_length(upstream),
                chunked: announced_length(upstream) is None,
            },
        }
    }
}

/// Adds a header if it has a value.
fn copy_header(headers: &mut Vec<Header>, name: &str, value: &Option<String>)
    ensures
        header_views(final(headers)@) == header_views(old(headers)@) + copied_header(name@, *value),
{
    match value {
        Some(value) => {
            headers.push(Header { name: name.to_owned(), value: value.clone() });
            assert(header_views(headers@) == header_views(old(headers)@) + seq![(name@, value@)]);
        },
        None => {
            assert(header_views(headers@) == header_views(old(headers)@) + Seq::empty());
        },
    }
}

/// Decides how to relay a hit.
pub fn relay(kind: RequestKind, head: bool, upstream: &UpstreamHead) -> (r: Relay)
    ensures
        r@ == relayed(kind, head, *upstream),
{
    let mut headers: Vec<Header> = Vec::new();
    assert(header_views(headers@) == Seq::<(Seq<char>, Seq<char>)>::empty());
    copy_header(&mut headers, "Content-Type", &upstream.content_type);
    copy_header(&mut headers, "Content-Length", &upstream.content_length);
    assert(header_views(headers@) == copied_headers(*upstream));
    if head {
        return Relay::Answer(Reply { code: 200, headers, body: Body::Empty });
    }
    match kind {
        RequestKind::Narinfo => Relay::Buffer { headers, limit: NARINFO_LIMIT },
        RequestKind::Nar => {
            let len: Option<usize> = match &upstream.content_length {
                Some(value) => parse_count(value),
                None => None,
            };
            Relay::Stream { code: 200, headers, len, chunked: len.is_none() }
        },
    }
}

/// Answers with a narinfo body as read from upstream `index`, byte for byte,
/// and remembers that upstream for the NAR that the narinfo names. Without a
/// body, because reading it failed, the answer is an error and nothing is
/// remembered.
pub fn finish_narinfo(
    app: &mut App,
    index: usize,
    headers: Vec<Header>,
    body: Option<Vec<u8>>,
) -> (r: Reply)
    ensures
        match body {
            Some(body) => {
                &&& r@ == (ReplyView {
                    code: 200,
                    headers: header_views(headers@),
                    body: BodyView::Data(body@),
                })
                &&& final(app).registry@ == (match named_nar(body@) {
                    Some(nar_path) => old(app).registry@.with_affinity(nar_path, index),
                    None => old(app).registry@,
                })
            },
            None => {
                &&& r@ == text_reply(502, "upstream read failed"@)
                &&& final(app).registry@ == old(app).registry@
            },
        },
        final(app).tiers == old(app).tiers,
        final(app).prober == old(app).prober,
        old(app).wf() && index < old(app).registry@.upstreams.len() ==> final(app).wf(),
{
    match body {
        Some(body) => {
            match narinfo_url_field(&body) {
                Some(nar_path) => {
                    app.registry.set_affinity(nar_path, index);
                },
                None => {},
            }
            Reply { code: 200, headers, body: Body::Data(body) }
        },
        None => text(502, "upstream read failed"),
    }
}

/// What the status endpoint reports.
#[derive(Debug)]
pub struct StatusReport {
    pub uptime_secs: u64,
    pub affinity_entries: usize,
    pub upstreams: Vec<UpstreamSnapshot>,
}

/// Reports the exact numbers that the selection engine ranks on.
pub fn status(app: &App, uptime_secs: u64) -> (r: StatusReport)
    ensures
        r.uptime_secs == uptime_secs,
        r.affinity_entries == app.registry@.affinity.len(),
        r.upstreams@ == app.registry@.upstreams,
{
    StatusReport {
        uptime_secs,
        affinity_entries: app.registry.affinity_len(),
        upstreams: app.registry.snapshot(),
    }
}

/// Whether an answer is plain text under a status, with no header of its own.
pub open spec fn is_plain(reply: Reply, code: int, body: Seq<char>) -> bool {
    &&& reply.code == code
    &&& reply.headers@.len() == 0
    &&& reply.body matches Body::Text(text) && text@ == body
}

/// A plain-text answer says what it was given to say.
pub proof fn law_plain_answers(code: u16, body: &str, r: Reply)
    requires
        call_ensures(text, (code, body), r),
    ensures
        is_plain(r, code as int, body@),
{
    assert(header_views(r.headers@).len() == r.headers@.len());
}

/// Whether a path ends in `.narinfo`.
pub open spec fn names_narinfo(path: Seq<char>) -> bool {
    exists|hash: Seq<char>| path == #[trigger] (hash + ".narinfo"@)
}

/// Whether a path lies below `/nar/`.
pub open spec fn names_nar(path: Seq<char>) -> bool {
    exists|rest: Seq<char>| path == #[trigger] ("/nar/"@ + rest)
}

proof fn lemma_names(path: Seq<char>)
    ensures
        names_narinfo(path) <==> ".narinfo"@.is_suffix_of(path),
        names_nar(path) <==> "/nar/"@.is_prefix_of(path),
{
    let suffix = ".narinfo"@;
    let prefix = "/nar/"@;
    let k = path.len() - suffix.len();
    if suffix.is_suffix_of(path) {
        assert(path == path.take(k) + suffix);
    }
    if names_narinfo(path) {
        let hash = choose|hash: Seq<char>| path == #[trigger] (hash + suffix);
        assert(hash.len() == k);
        assert(path.subrange(k, path.len() as int) == suffix);
    }
    if prefix.is_prefix_of(path) {
        assert(path == prefix + path.skip(prefix.len() as int));
    }
    if names_nar(path) {
        assert(path.subrange(0, prefix.len() as int) == prefix);
    }
}

/// What every request gets. Whatever is neither `GET` nor `HEAD` is refused with
/// 405. The proxy's own two paths are answered by itself. Of the rest, what ends
/// in `.narinfo` is forwarded as a narinfo, what lies below `/nar/` as a NAR, and
/// a `HEAD` as a `HEAD`; anything else is not found.
pub proof fn law_what_a_request_gets(method: Method, path: &str, d: Dispatch)
    requires
        call_ensures(handle, (method, path), d),
    ensures
        method == Method::Other ==> (d matches Dispatch::Answer(r) && is_plain(
            r,
            405,
            "sito is read-only"@,
        )),
        method != Method::Other && path@ == "/nix-cache-info"@ ==> (d matches Dispatch::Answer(r)
            && is_plain(r, 200, "StoreDir: /nix/store\nWantMassQuery: 1\nPriority: 10\n"@)),
        method != Method::Other && path@ != "/nix-cache-info"@ ==> (d is Status <==> path@
            == "/status"@),
        d is Status ==> method != Method::Other && path@ == "/status"@,
        d is Forward <==> {
            &&& method != Method::Other
            &&& path@ != "/nix-cache-info"@
            &&& path@ != "/status"@
            &&& names_narinfo(path@) || names_nar(path@)
        },
        d matches Dispatch::Forward { kind, head } ==> {
            &&& kind == RequestKind::Narinfo <==> names_narinfo(path@)
            &&& head <==> method == Method::Head
        },
        method != Method::Other && path@ != "/nix-cache-info"@ && d is Answer ==> (
        d matches Dispatch::Answer(r) && is_plain(r, 404, "not found"@)),
{
    lemma_names(path@);
    if d is Answer {
        let reply = d->Answer_0;
        assert(header_views(reply.headers@).len() == reply.headers@.len());
    }
}

/// What a selection engine is told, field by field: the request as it came, every
/// tier with its strategy and its upstreams as the registry has them, and for a
/// NAR the upstream remembered for its path without leading slashes.
pub proof fn law_what_an_engine_is_told(
    app: &App,
    kind: RequestKind,
    path: &str,
    input: SelectionInput,
    slashes: Seq<char>,
    rest: Seq<char>,
)
    requires
        app.tiers_registered(),
        call_ensures(selection_input, (app, kind, path), input),
        path@ == slashes + rest,
        forall|i: int| 0 <= i < slashes.len() ==> #[trigger] slashes[i] == '/',
        rest.len() > 0 ==> rest[0] != '/',
    ensures
        is_told(*app, kind, path@, input, rest),
{
    law_description(*app, kind, path@, input, slashes, rest);
}

/// What an engine is told of a request for `path`, which is `rest` without its
/// leading slashes.
pub open spec fn is_told(
    app: App,
    kind: RequestKind,
    path: Seq<char>,
    input: SelectionInput,
    rest: Seq<char>,
) -> bool {
    &&& input.kind == kind
    &&& input.path@ == path
    &&& kind == RequestKind::Narinfo ==> input.affinity is None
    &&& kind == RequestKind::Nar ==> (input.affinity is Some
        <==> app.registry@.affinity.contains_key(rest))
    &&& input.affinity matches Some(index) ==> app.registry@.affinity[rest] == index
    &&& input.tiers@.len() == app.tiers@.len()
    &&& forall|t: int|
        0 <= t < app.tiers@.len() ==> {
            &&& (#[trigger] input.tiers@[t]).strategy == app.tiers@[t].strategy
            &&& input.tiers@[t].upstreams@.len() == app.tiers@[t].indices@.len()
        }
    &&& forall|t: int, j: int|
        #![trigger input.tiers@[t].upstreams@[j]]
        0 <= t < app.tiers@.len() && 0 <= j < app.tiers@[t].indices@.len()
            ==> input.tiers@[t].upstreams@[j]
            == app.registry@.upstreams[app.tiers@[t].indices@[j] as int]
}

/// The same of whatever describes a request.
pub proof fn law_description(
    app: App,
    kind: RequestKind,
    path: Seq<char>,
    input: SelectionInput,
    slashes: Seq<char>,
    rest: Seq<char>,
)
    requires
        app.describes(kind, path, input),
        path == slashes + rest,
        forall|i: int| 0 <= i < slashes.len() ==> #[trigger] slashes[i] == '/',
        rest.len() > 0 ==> rest[0] != '/',
    ensures
        is_told(app, kind, path, input, rest),
{
    lemma_without_leading_slashes(path, slashes, rest);
    let shown = tier_views(input.tiers@);
    let now = tiers_now(app.tiers@, app.registry@.upstreams);
    assert(shown.len() == now.len());
    assert forall|t: int| 0 <= t < app.tiers@.len() implies (#[trigger] input.tiers@[t]).strategy
        == app.tiers@[t].strategy && input.tiers@[t].upstreams@.len()
        == app.tiers@[t].indices@.len() by {
        assert(shown[t] == now[t]);
    }
    assert forall|t: int, j: int|
        #![trigger input.tiers@[t].upstreams@[j]]
        0 <= t < app.tiers@.len() && 0 <= j < app.tiers@[t].indices@.len() implies input.tiers@[t].upstreams@[j]
        == app.registry@.upstreams[app.tiers@[t].indices@[j] as int] by {
        assert(shown[t] == now[t]);
        assert(shown[t][j] == now[t][j]);
    }
}

/// Whatever engine selects, it is told what the proxy knows of the request, and the
/// request is as it came and follows the plan that it answers.
pub proof fn law_any_engine_is_followed<E: SelectionEngine>(
    app: &App,
    engine: &E,
    kind: RequestKind,
    head: bool,
    path: &str,
    walk: Forward,
    slashes: Seq<char>,
    rest: Seq<char>,
)
    requires
        app.tiers_registered(),
        call_ensures(forward::<E>, (app, engine, kind, head, path), walk),
        path@ == slashes + rest,
        forall|i: int| 0 <= i < slashes.len() ==> #[trigger] slashes[i] == '/',
        rest.len() > 0 ==> rest[0] != '/',
    ensures
        walk@.kind == kind,
        walk@.head == head,
        walk@.path == path@,
        walk@.tried == 0,
        exists|input: SelectionInput, plan: Plan|
            is_told(*app, kind, path@, input, rest) && #[trigger] call_ensures(
                E::plan,
                (engine, &input),
                plan,
            ) && walk@.attempts == plan.attempts@,
{
    let (input, plan) = choose|input: SelectionInput, plan: Plan|
        app.describes(kind, path@, input) && #[trigger] call_ensures(
            E::plan,
            (engine, &input),
            plan,
        ) && walk@.attempts == plan.attempts@;
    law_description(*app, kind, path@, input, slashes, rest);
}

/// The next call of a request goes to the first upstream of its plan that was not
/// tried yet: to its path, as it came, below that upstream's URL, and as a `HEAD`
/// if it came as one. Once all were tried there is none, and the client is told
/// that no upstream has the path; before that it is told nothing.
pub proof fn law_next_call_of_a_request(
    walk: &Forward,
    registry: &Registry,
    next: Option<usize>,
    fetch: Option<Fetch>,
    answer: Option<Reply>,
    stem: Seq<char>,
    slashes: Seq<char>,
)
    requires
        walk@.tried < walk@.attempts.len() ==> {
            &&& walk@.attempts[walk@.tried] < registry@.upstreams.len()
            &&& registry@.upstreams[walk@.attempts[walk@.tried] as int].url@ == stem + slashes
        },
        forall|i: int| 0 <= i < slashes.len() ==> #[trigger] slashes[i] == '/',
        stem.len() > 0 ==> stem.last() != '/',
        call_ensures(Forward::next_index, (walk,), next),
        call_ensures(Forward::fetch, (walk, registry), fetch),
        call_ensures(Forward::answer, (walk,), answer),
    ensures
        walk@.tried < walk@.attempts.len() ==> {
            &&& next == Some(walk@.attempts[walk@.tried])
            &&& fetch is Some
            &&& fetch->0.index == walk@.attempts[walk@.tried]
            &&& fetch->0.url@ == stem + walk@.path
            &&& fetch->0.head == walk@.head
            &&& fetch->0.kind == walk@.kind
            &&& answer is None
        },
        walk@.tried >= walk@.attempts.len() ==> {
            &&& next is None
            &&& fetch is None
            &&& answer is Some
            &&& is_plain(answer->0, 404, "no upstream has this path"@)
        },
{
    if walk@.tried < walk@.attempts.len() {
        law_target_is_below_base(
            registry@.upstreams[walk@.attempts[walk@.tried] as int].url@,
            walk@.path,
            stem,
            slashes,
        );
    } else {
        assert(header_views((answer->0).headers@).len() == (answer->0).headers@.len());
    }
}

/// One attempt, field by field. A status from 200 to 299 is a hit, and the request
/// rests there; a 404 is a miss and anything else an error, and it moves on. A NAR
/// hit adds one to the hits of its upstream and changes nothing else of it; a
/// narinfo hit adds its latency besides; a miss adds one to the misses and changes
/// nothing else; an error adds one to the errors, marks the upstream down and asks
/// for a probe pass. Nothing else changes.
pub proof fn law_one_attempt(
    walk: &mut Forward,
    app: &mut App,
    outcome: Outcome,
    narinfo_ms: Sample,
    v: Verdict,
)
    requires
        old(walk)@.tried < old(walk)@.attempts.len(),
        old(walk)@.attempts[old(walk)@.tried] < old(app).registry@.upstreams.len(),
        ({
            let u = old(app).registry@.upstreams[old(walk)@.attempts[old(walk)@.tried] as int];
            let hit = outcome matches Outcome::Status(code) && code >= 200 && code <= 299;
            let miss = outcome == Outcome::Status(404);
            &&& hit ==> u.hits < u64::MAX
            &&& miss ==> u.misses < u64::MAX
            &&& !hit && !miss ==> u.errors < u64::MAX
        }),
        call_ensures(Forward::settle, (walk, app, outcome, narinfo_ms), v),
    ensures
        ({
            let index = old(walk)@.attempts[old(walk)@.tried] as int;
            let before = old(app).registry@.upstreams[index];
            let after = final(app).registry@.upstreams[index];
            let hit = outcome matches Outcome::Status(code) && code >= 200 && code <= 299;
            let miss = outcome == Outcome::Status(404);
            &&& after.index == before.index
            &&& after.url == before.url
            &&& after.tier == before.tier
            &&& after.probe_ms == before.probe_ms
            &&& after.nar_mbps == before.nar_mbps
            &&& hit && old(walk)@.kind == RequestKind::Narinfo ==> takes_sample(
                before.narinfo_ms,
                after.narinfo_ms,
                narinfo_ms,
            )
            &&& !hit || old(walk)@.kind == RequestKind::Nar ==> after.narinfo_ms
                == before.narinfo_ms
            &&& after.hits == before.hits + (if hit {
                1int
            } else {
                0
            })
            &&& after.misses == before.misses + (if miss {
                1int
            } else {
                0
            })
            &&& after.errors == before.errors + (if !hit && !miss {
                1int
            } else {
                0
            })
            &&& hit || miss ==> after.healthy == before.healthy
            &&& !hit && !miss ==> after.healthy == Some(false)
            &&& only_upstream_changed(old(app).registry@, final(app).registry@, index)
            &&& final(app).tiers == old(app).tiers
            &&& final(app).prober.wants_pass() <==> old(app).prober.wants_pass() || !hit && !miss
            &&& v == Verdict::Hit <==> hit
            &&& v == Verdict::Miss <==> miss
            &&& final(walk)@.kind == old(walk)@.kind
            &&& final(walk)@.head == old(walk)@.head
            &&& final(walk)@.path == old(walk)@.path
            &&& final(walk)@.attempts == old(walk)@.attempts
            &&& final(walk)@.tried == old(walk)@.tried + (if hit {
                0int
            } else {
                1
            })
        }),
{
}

/// Whether the headers are those that are passed on: the content type and the
/// content length as the upstream gave them, as far as it did, and no other.
pub open spec fn passed_on(headers: Seq<Header>, upstream: UpstreamHead) -> bool {
    &&& headers.len() == (if upstream.content_type is Some {
        1int
    } else {
        0
    }) + (if upstream.content_length is Some {
        1int
    } else {
        0
    })
    &&& upstream.content_type matches Some(value) ==> {
        &&& headers.first().name@ == "Content-Type"@
        &&& headers.first().value@ == value@
    }
    &&& upstream.content_length matches Some(value) ==> {
        &&& headers.last().name@ == "Content-Length"@
        &&& headers.last().value@ == value@
    }
}

proof fn lemma_passed_on(headers: Seq<Header>, upstream: UpstreamHead)
    requires
        header_views(headers) == copied_headers(upstream),
    ensures
        passed_on(headers, upstream),
{
    let shown = header_views(headers);
    assert(shown.len() == headers.len());
    if headers.len() > 0 {
        assert(shown.first() == headers.first()@);
        assert(shown.last() == headers.last()@);
    }
}

/// How a hit goes to the client. A `HEAD` is answered 200 with the headers and no
/// body. A narinfo is read up to 1 MiB. A NAR is streamed under 200: with a length
/// exactly if the upstream announces one that spells a count, and then that one,
/// and in chunks exactly if there is none.
pub proof fn law_how_a_hit_is_relayed(
    kind: RequestKind,
    head: bool,
    upstream: &UpstreamHead,
    r: Relay,
    digits: Seq<char>,
)
    requires
        call_ensures(relay, (kind, head, upstream), r),
        upstream.content_length matches Some(value) ==> (value@ == digits && (digits.len() > 0
            ==> digits[0] != '+') || value@ == seq!['+'] + digits),
    ensures
        head ==> (r matches Relay::Answer(reply) && reply.code == 200 && reply.body is Empty
            && passed_on(reply.headers@, *upstream)),
        !head && kind == RequestKind::Narinfo ==> (r matches Relay::Buffer { headers, limit }
            && passed_on(headers@, *upstream) && limit == 1024 * 1024),
        !head && kind == RequestKind::Nar ==> (r matches Relay::Stream { code, headers, .. } && code
            == 200 && passed_on(headers@, *upstream)),
        r matches Relay::Stream { len, chunked, .. } ==> {
            &&& upstream.content_length is None ==> len is None
            &&& len is Some <==> {
                &&& upstream.content_length is Some
                &&& digits.len() > 0
                &&& forall|i: int| 0 <= i < digits.len() ==> '0' <= #[trigger] digits[i] <= '9'
                &&& place_value(digits) <= usize::MAX
            }
            &&& len matches Some(n) ==> n == place_value(digits)
            &&& chunked <==> len is None
        },
{
    if upstream.content_length is Some {
        law_count_value_is_what_the_digits_spell((upstream.content_length->0)@, digits);
    }
    match r {
        Relay::Answer(reply) => lemma_passed_on(reply.headers@, *upstream),
        Relay::Buffer { headers, .. } => lemma_passed_on(headers@, *upstream),
        Relay::Stream { headers, .. } => lemma_passed_on(headers@, *upstream),
    }
}

/// A narinfo goes to the client byte for byte under 200 with its headers, and its
/// upstream is remembered for the NAR that it names, and for nothing else. One that
/// could not be read is answered 502 and leaves nothing behind.
pub proof fn law_narinfo_is_passed_through(
    app: &mut App,
    index: usize,
    headers: Vec<Header>,
    body: Option<Vec<u8>>,
    r: Reply,
)
    requires
        call_ensures(finish_narinfo, (app, index, headers, body), r),
    ensures
        body matches Some(bytes) ==> {
            &&& r.code == 200
            &&& r.body matches Body::Data(sent) && sent@ == bytes@
            &&& r.headers@.len() == headers@.len()
            &&& forall|i: int|
                #![trigger r.headers@[i]]
                0 <= i < headers@.len() ==> r.headers@[i].name@ == headers@[i].name@
                    && r.headers@[i].value@ == headers@[i].value@
        },
        body is None ==> is_plain(r, 502, "upstream read failed"@),
        final(app).registry@.upstreams == old(app).registry@.upstreams,
        body is None || named_nar(body->0@) is None ==> final(app).registry@.affinity
            == old(app).registry@.affinity,
        body is Some && named_nar(body->0@) is Some ==> {
            let nar = named_nar(body->0@)->0;
            &&& final(app).registry@.affinity.contains_key(nar)
            &&& final(app).registry@.affinity[nar] == index
            &&& old(app).registry@.affinity.len() < 4096 ==> final(app).registry@.affinity
                == old(app).registry@.affinity.insert(nar, index)
            &&& old(app).registry@.affinity.len() >= 4096 ==> forall|other: Seq<char>|
                other != nar ==> !#[trigger] final(app).registry@.affinity.contains_key(other)
        },
        final(app).tiers == old(app).tiers,
        final(app).prober.wants_pass() == old(app).prober.wants_pass(),
{
    let shown = header_views(r.headers@);
    assert(shown.len() == r.headers@.len());
    if body is Some {
        let given = header_views(headers@);
        assert(shown == given);
        assert(given.len() == headers@.len());
        assert forall|i: int|
            #![trigger r.headers@[i]]
            0 <= i < headers@.len() implies r.headers@[i].name@ == headers@[i].name@
            && r.headers@[i].value@ == headers@[i].value@ by {
            assert(shown[i] == given[i]);
        }
    }
}

/// The status report is what the registry holds.
pub proof fn law_status_is_the_registry(app: &App, uptime_secs: u64, r: StatusReport)
    requires
        call_ensures(status, (app, uptime_secs), r),
    ensures
        r.uptime_secs == uptime_secs,
        r.affinity_entries == app.registry@.affinity.len(),
        r.upstreams@.len() == app.registry@.upstreams.len(),
        forall|i: int|
            0 <= i < app.registry@.upstreams.len() ==> #[trigger] r.upstreams@[i]
                == app.registry@.upstreams[i],
{
}

} // verus!
