//! The bounded escape-time search.
//!
//! An orbit is driven by a closure: call number `k` advances the orbit by one
//! step and answers whether it is still within the escape radius. The search
//! stops at the first answer `false`.

use vstd::prelude::*;

verus! {

/// `outcome` is what a search over the answers of `in_range` may end with:
/// `Some(k)` when call `k` answered `false` after `k` answers `true`, and
/// `None` when all `limit` calls answered `true`.
pub open spec fn escapes_at<F: FnMut(u32) -> bool>(
    in_range: F,
    limit: u32,
    outcome: Option<u32>,
) -> bool {
    match outcome {
        Some(k) => {
            &&& k < limit
            &&& call_ensures(in_range, (k,), false)
            &&& forall|j: u32| j < k ==> #[trigger] call_ensures(in_range, (j,), true)
        },
        None => forall|j: u32| j < limit ==> #[trigger] call_ensures(in_range, (j,), true),
    }
}

/// The same statement over a mathematical orbit, `in_range(k)` telling whether
/// the orbit is within the radius after step `k`: `outcome` is the first step
/// below `limit` at which the orbit is outside, if there is one.
pub open spec fn first_escape(
    in_range: spec_fn(u32) -> bool,
    limit: u32,
    outcome: Option<u32>,
) -> bool {
    match outcome {
        Some(k) => {
            &&& k < limit
            &&& !in_range(k)
            &&& forall|j: u32| j < k ==> #[trigger] in_range(j)
        },
        None => forall|j: u32| j < limit ==> #[trigger] in_range(j),
    }
}

/// Every answer that the closure can give is the one `model` prescribes.
pub open spec fn answers<F: FnMut(u32) -> bool>(step: F, model: spec_fn(u32) -> bool) -> bool {
    forall|k: u32, answer: bool| #[trigger] call_ensures(step, (k,), answer) ==> answer == model(k)
}

/// Runs the orbit for at most `limit` steps and reports the first step at
/// which it left the escape radius.
pub fn escape_time<F: FnMut(u32) -> bool>(in_range: F, limit: u32) -> (outcome: Option<u32>)
    requires
        forall|k: u32| k < limit ==> #[trigger] call_requires(in_range, (k,)),
    ensures
        escapes_at(in_range, limit, outcome),
        outcome matches Some(k) ==> k < limit,
{
    let mut step = in_range;
    let mut k: u32 = 0;
    while k < limit
        invariant
            k <= limit,
            step == in_range,
            forall|j: u32| j < limit ==> #[trigger] call_requires(in_range, (j,)),
            forall|j: u32| j < k ==> #[trigger] call_ensures(in_range, (j,), true),
        decreases limit - k,
    {
        if !step(k) {
            return Some(k);
        }
        k = k + 1;
    }
    None
}

/// A search over a closure that answers as `model` does ends with the first
/// escape of `model`.
pub proof fn lemma_escape_follows_model<F: FnMut(u32) -> bool>(
    step: F,
    model: spec_fn(u32) -> bool,
    limit: u32,
    outcome: Option<u32>,
)
    requires
        escapes_at(step, limit, outcome),
        answers(step, model),
    ensures
        first_escape(model, limit, outcome),
{
    match outcome {
        Some(k) => {
            assert forall|j: u32| j < k implies #[trigger] model(j) by {
                assert(call_ensures(step, (j,), true));
            }
        },
        None => {
            assert forall|j: u32| j < limit implies #[trigger] model(j) by {
                assert(call_ensures(step, (j,), true));
            }
        },
    }
}

/// An orbit has one escape time: two outcomes of the same orbit and limit are
/// equal.
pub proof fn lemma_first_escape_unique(
    in_range: spec_fn(u32) -> bool,
    limit: u32,
    first: Option<u32>,
    second: Option<u32>,
)
    requires
        first_escape(in_range, limit, first),
        first_escape(in_range, limit, second),
    ensures
        first == second,
{
}

/// An orbit that is within the radius after every step never escapes,
/// whatever the limit.
pub proof fn lemma_bounded_orbit_never_escapes<F: FnMut(u32) -> bool>(
    in_range: F,
    limit: u32,
    outcome: Option<u32>,
)
    requires
        escapes_at(in_range, limit, outcome),
        forall|k: u32, answer: bool|
            k < limit && #[trigger] call_ensures(in_range, (k,), answer) ==> answer,
    ensures
        outcome is None,
{
}

/// An orbit that is outside the radius after its first step escapes at
/// iteration 0, for every limit above 0.
pub proof fn lemma_immediate_escape<F: FnMut(u32) -> bool>(
    in_range: F,
    limit: u32,
    outcome: Option<u32>,
)
    requires
        escapes_at(in_range, limit, outcome),
        limit > 0,
        forall|answer: bool| #[trigger] call_ensures(in_range, (0u32,), answer) ==> !answer,
    ensures
        outcome == Some(0u32),
{
    match outcome {
        Some(k) => {
            if k > 0 {
                assert(call_ensures(in_range, (0u32,), true));
            }
        },
        None => {
            assert(call_ensures(in_range, (0u32,), true));
        },
    }
}

} // verus!
