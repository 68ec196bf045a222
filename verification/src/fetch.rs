//! One call to an upstream: the URL it goes to and what its outcome means.
use crate::text::{
    drop_trailing, is_slash, joined, lemma_without_trailing_slashes, trim_trailing_slashes,
    without_trailing_slashes,
};
use vstd::prelude::*;

verus! {

/// What a call to an upstream came to.
#[derive(Debug, Clone, Copy, PartialEq, Eq, Structural)]
pub enum Outcome {
    /// An answer with this status.
    Status(u16),
    /// No answer: connection refused, timeout, TLS and the like.
    Failed,
}

/// What an outcome means for a request.
#[derive(Debug, Clone, Copy, PartialEq, Eq, Structural)]
pub enum Verdict {
    /// The upstream has the path.
    Hit,
    /// The upstream lacks the path.
    Miss,
    /// The upstream is not usable.
    Error,
}

/// Whether a call succeeded: an answer in the 2xx range.
pub open spec fn answered(outcome: Outcome) -> bool {
    outcome matches Outcome::Status(code) && 200 <= code < 300
}

/// A success is a hit, a 404 a miss, and everything else an error.
pub open spec fn verdict_of(outcome: Outcome) -> Verdict {
    if answered(outcome) {
        Verdict::Hit
    } else if outcome == Outcome::Status(404) {
        Verdict::Miss
    } else {
        Verdict::Error
    }
}

/// Where a path is fetched from: the base URL without trailing slashes, then
/// the path verbatim.
pub open spec fn target_url(base: Seq<char>, path: Seq<char>) -> Seq<char> {
    without_trailing_slashes(base) + path
}

/// Whether a call succeeded.
pub fn is_success(outcome: Outcome) -> (r: bool)
    ensures
        r == answered(outcome),
{
    match outcome {
        Outcome::Status(code) => 200 <= code && code < 300,
        Outcome::Failed => false,
    }
}

/// What an outcome means.
pub fn verdict(outcome: Outcome) -> (v: Verdict)
    ensures
        v == verdict_of(outcome),
{
    if is_success(outcome) {
        Verdict::Hit
    } else {
        match outcome {
            Outcome::Status(404) => Verdict::Miss,
            _ => Verdict::Error,
        }
    }
}

/// The URL of a path at an upstream.
pub fn upstream_url(base: &str, path: &str) -> (url: String)
    ensures
        url@ == target_url(base@, path@),
{
    joined(trim_trailing_slashes(base), path)
}

/// A trailing slash in a base URL makes no difference.
pub proof fn law_trailing_slash_is_tolerated(base: Seq<char>, path: Seq<char>)
    ensures
        target_url(base.push('/'), path) == target_url(base, path),
{
    let p = |c: char| is_slash(c);
    assert(base.push('/').drop_last() == base);
    assert(p('/'));
    assert(drop_trailing(base.push('/'), p) == drop_trailing(base, p));
}

/// By status: from 200 to 299 a hit, 404 a miss, every other status and no answer
/// at all an error; and only a hit is a success.
pub proof fn law_outcomes_by_status(outcome: Outcome, v: Verdict, success: bool)
    requires
        call_ensures(verdict, (outcome,), v),
        call_ensures(is_success, (outcome,), success),
    ensures
        outcome is Failed ==> v == Verdict::Error,
        outcome matches Outcome::Status(code) ==> {
            &&& v == Verdict::Hit <==> code >= 200 && code <= 299
            &&& v == Verdict::Miss <==> code == 404
            &&& v == Verdict::Error <==> code < 200 || code > 299 && code != 404
        },
        success <==> v == Verdict::Hit,
        v == verdict_of(outcome),
        success == answered(outcome),
{
}

/// A path is fetched from below the base URL: whatever slashes the base ends in
/// are dropped, and the path follows as it is.
pub proof fn law_path_follows_base(
    base: &str,
    path: &str,
    url: String,
    stem: Seq<char>,
    slashes: Seq<char>,
)
    requires
        call_ensures(upstream_url, (base, path), url),
        base@ == stem + slashes,
        forall|i: int| 0 <= i < slashes.len() ==> #[trigger] slashes[i] == '/',
        stem.len() > 0 ==> stem.last() != '/',
    ensures
        url@ == stem + path@,
{
    lemma_without_trailing_slashes(base@, stem, slashes);
}

/// The same of the URL itself.
pub proof fn law_target_is_below_base(
    base: Seq<char>,
    path: Seq<char>,
    stem: Seq<char>,
    slashes: Seq<char>,
)
    requires
        base == stem + slashes,
        forall|i: int| 0 <= i < slashes.len() ==> #[trigger] slashes[i] == '/',
        stem.len() > 0 ==> stem.last() != '/',
    ensures
        target_url(base, path) == stem + path,
{
    lemma_without_trailing_slashes(base, stem, slashes);
}

} // verus!
