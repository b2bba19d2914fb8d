//! What to do with starts that overlap.
use std::collections::BTreeMap;

use vstd::pervasive::cloned;
use vstd::prelude::*;

use crate::types::{BufferedStart, ScheduleOverlapPolicy};

verus! {

/// Something that waits to be started.
pub trait Overlappable: Clone + PartialEq {
    /// The policy that applies if it overlaps with another start.
    fn overlap_policy(&self) -> ScheduleOverlapPolicy;
}

impl Overlappable for BufferedStart {
    fn overlap_policy(&self) -> (r: ScheduleOverlapPolicy)
        ensures
            r == self.overlap_policy,
    {
        self.get_overlap_policy()
    }
}

/// What becomes of the starts in a buffer.
#[derive(Debug, Clone)]
pub struct ProcessBufferResult<T> {
    /// The starts that may run beside any other.
    pub overlapping_starts: Vec<T>,
    /// The one start that may run if nothing else does.
    pub non_overlapping_start: Option<T>,
    /// The starts that go on waiting.
    pub new_buffer: Vec<T>,
    /// Whether what is running is to be cancelled.
    pub need_cancel: bool,
    /// Whether what is running is to be terminated.
    pub need_terminate: bool,
    /// How many starts were dropped because they overlapped.
    pub overlap_skipped: i64,
    /// How many were dropped under each policy, by the policy's number.
    pub overlap_skipped_by_policy: BTreeMap<u8, i64>,
}

// ---------------------------------------------------------------------------
// The decision
// ---------------------------------------------------------------------------

/// What becomes of the starts in a buffer, each given by its place.
#[verifier::ext_equal]
pub struct Decision {
    pub overlapping: Seq<int>,
    pub non_overlapping: Option<int>,
    pub waiting: Seq<int>,
    pub cancel: bool,
    pub terminate: bool,
    pub skipped: Seq<int>,
}

/// No start has been decided on.
pub open spec fn undecided() -> Decision {
    Decision {
        overlapping: Seq::empty(),
        non_overlapping: None,
        waiting: Seq::empty(),
        cancel: false,
        terminate: false,
        skipped: Seq::empty(),
    }
}

/// What becomes of the start at place `i`, given what became of those before it.
pub open spec fn decide_one(
    d: Decision,
    i: int,
    policy: ScheduleOverlapPolicy,
    is_running: bool,
) -> Decision {
    if policy == ScheduleOverlapPolicy::AllowAll {
        Decision { overlapping: d.overlapping.push(i), ..d }
    } else if !is_running && d.non_overlapping is None {
        Decision { non_overlapping: Some(i), ..d }
    } else {
        match policy {
            ScheduleOverlapPolicy::Skip => Decision { skipped: d.skipped.push(i), ..d },
            ScheduleOverlapPolicy::BufferOne => if d.waiting.len() == 0 {
                Decision { waiting: d.waiting.push(i), ..d }
            } else {
                Decision { skipped: d.skipped.push(i), ..d }
            },
            ScheduleOverlapPolicy::BufferAll => Decision { waiting: d.waiting.push(i), ..d },
            ScheduleOverlapPolicy::CancelOther => if is_running {
                Decision { cancel: true, waiting: d.waiting.push(i), ..d }
            } else {
                Decision { non_overlapping: Some(i), ..d }
            },
            ScheduleOverlapPolicy::TerminateOther => if is_running {
                Decision { terminate: true, waiting: d.waiting.push(i), ..d }
            } else {
                Decision { non_overlapping: Some(i), ..d }
            },
            ScheduleOverlapPolicy::Unspecified => d,
            ScheduleOverlapPolicy::AllowAll => d,
        }
    }
}

/// What becomes of starts with the given policies, taken one after the other.
pub open spec fn decide_each(policies: Seq<ScheduleOverlapPolicy>, is_running: bool) -> Decision
    decreases policies.len(),
{
    if policies.len() == 0 {
        undecided()
    } else {
        decide_one(
            decide_each(policies.drop_last(), is_running),
            policies.len() - 1,
            policies.last(),
            is_running,
        )
    }
}

/// What becomes of starts with the given policies. If what is running is to be cancelled or
/// terminated, so would be whatever started beside it: then nothing does.
pub open spec fn decide(policies: Seq<ScheduleOverlapPolicy>, is_running: bool) -> Decision {
    let d = decide_each(policies, is_running);
    if d.cancel || d.terminate {
        Decision { overlapping: Seq::empty(), ..d }
    } else {
        d
    }
}

/// How many starts at the given places have each policy, by the policy's number.
pub open spec fn counts_by_policy(
    places: Seq<int>,
    policies: Seq<ScheduleOverlapPolicy>,
) -> Map<u8, i64>
    decreases places.len(),
{
    if places.len() == 0 {
        Map::empty()
    } else {
        let before = counts_by_policy(places.drop_last(), policies);
        let code = policies[places.last()].code();
        if before.contains_key(code) {
            before.insert(code, (before[code] + 1) as i64)
        } else {
            before.insert(code, 1)
        }
    }
}

/// Whether `copies` are clones of the starts at the given places.
pub open spec fn are_clones<T: Clone>(copies: Seq<T>, buffer: Seq<T>, places: Seq<int>) -> bool {
    &&& copies.len() == places.len()
    &&& forall|j: int|
        0 <= j < places.len() ==> cloned(buffer[places[j]], #[trigger] copies[j])
}

/// Whether `policy` is what the policy of a start stands for.
pub open spec fn resolves_to<T, F>(
    start: T,
    resolve: F,
    policy: ScheduleOverlapPolicy,
) -> bool where
    T: Overlappable,
    F: Fn(ScheduleOverlapPolicy) -> ScheduleOverlapPolicy,
 {
    exists|own: ScheduleOverlapPolicy| #[trigger]
        call_ensures(T::overlap_policy, (&start,), own) && call_ensures(resolve, (own,), policy)
}

/// Whether `policies` are what the policies of the starts stand for, one by one.
pub open spec fn are_resolved<T, F>(
    policies: Seq<ScheduleOverlapPolicy>,
    buffer: Seq<T>,
    resolve: F,
) -> bool where
    T: Overlappable,
    F: Fn(ScheduleOverlapPolicy) -> ScheduleOverlapPolicy,
 {
    &&& policies.len() == buffer.len()
    &&& forall|i: int|
        0 <= i < buffer.len() ==> resolves_to(buffer[i], resolve, #[trigger] policies[i])
}

/// Whether `r` is the outcome of a decision on starts with the given policies.
pub open spec fn is_outcome<T: Clone>(
    r: ProcessBufferResult<T>,
    buffer: Seq<T>,
    policies: Seq<ScheduleOverlapPolicy>,
    d: Decision,
) -> bool {
    &&& are_clones(r.overlapping_starts@, buffer, d.overlapping)
    &&& match d.non_overlapping {
        Some(i) => r.non_overlapping_start matches Some(start) && cloned(buffer[i], start),
        None => r.non_overlapping_start is None,
    }
    &&& are_clones(r.new_buffer@, buffer, d.waiting)
    &&& r.need_cancel == d.cancel
    &&& r.need_terminate == d.terminate
    &&& r.overlap_skipped == d.skipped.len()
    &&& r.overlap_skipped_by_policy@ == counts_by_policy(d.skipped, policies)
}

/// Whether `r` is what becomes of the starts in a buffer.
pub open spec fn is_processed<T, F>(
    r: ProcessBufferResult<T>,
    buffer: Seq<T>,
    is_running: bool,
    resolve: F,
) -> bool where
    T: Overlappable,
    F: Fn(ScheduleOverlapPolicy) -> ScheduleOverlapPolicy,
 {
    exists|policies: Seq<ScheduleOverlapPolicy>|
        are_resolved(policies, buffer, resolve) && is_outcome(
            r,
            buffer,
            policies,
            #[trigger] decide(policies, is_running),
        )
}

// ---------------------------------------------------------------------------
// Deciding
// ---------------------------------------------------------------------------

/// Counts one more under a policy's number.
fn count_one(counts: &mut BTreeMap<u8, i64>, code: u8)
    requires
        old(counts)@.contains_key(code) ==> old(counts)@[code] < i64::MAX,
    ensures
        final(counts)@ == (if old(counts)@.contains_key(code) {
            old(counts)@.insert(code, (old(counts)@[code] + 1) as i64)
        } else {
            old(counts)@.insert(code, 1)
        }),
{
    let count: i64 = match counts.get(&code) {
        Some(n) => *n + 1,
        None => 1,
    };
    counts.insert(code, count);
}

/// No count is greater than the number of places, or less than 1.
proof fn lemma_counts_are_bounded(
    places: Seq<int>,
    policies: Seq<ScheduleOverlapPolicy>,
    code: u8,
)
    requires
        places.len() <= i64::MAX,
    ensures
        ({
            let counts = counts_by_policy(places, policies);
            counts.contains_key(code) ==> 1 <= counts[code] <= places.len()
        }),
    decreases places.len(),
{
    if places.len() > 0 {
        lemma_counts_are_bounded(places.drop_last(), policies, code);
        lemma_counts_are_bounded(
            places.drop_last(),
            policies,
            policies[places.last()].code(),
        );
    }
}

/// Counting goes by the policies at the places, and by no others.
proof fn lemma_counts_go_by_places(
    places: Seq<int>,
    policies: Seq<ScheduleOverlapPolicy>,
    n: int,
)
    requires
        0 <= n <= policies.len(),
        forall|j: int| 0 <= j < places.len() ==> 0 <= #[trigger] places[j] < n,
    ensures
        counts_by_policy(places, policies) == counts_by_policy(places, policies.take(n)),
    decreases places.len(),
{
    if places.len() > 0 {
        assert(0 <= places[places.len() - 1] < n);
        assert forall|j: int| 0 <= j < places.drop_last().len() implies 0 <= #[trigger]
            places.drop_last()[j] < n by {
            assert(places.drop_last()[j] == places[j]);
        }
        lemma_counts_go_by_places(places.drop_last(), policies, n);
    }
}

/// Every place that a decision speaks of is one of a start that was decided on, and no place is
/// skipped more often than there are starts.
pub(crate) proof fn lemma_places(policies: Seq<ScheduleOverlapPolicy>, is_running: bool)
    ensures
        ({
            let d = decide_each(policies, is_running);
            &&& forall|j: int|
                0 <= j < d.overlapping.len() ==> 0 <= #[trigger] d.overlapping[j] < policies.len()
            &&& d.non_overlapping matches Some(i) ==> 0 <= i < policies.len()
            &&& forall|j: int|
                0 <= j < d.waiting.len() ==> 0 <= #[trigger] d.waiting[j] < policies.len()
            &&& forall|j: int|
                0 <= j < d.skipped.len() ==> 0 <= #[trigger] d.skipped[j] < policies.len()
            &&& d.overlapping.len() + d.waiting.len() + d.skipped.len() <= policies.len()
        }),
    decreases policies.len(),
{
    if policies.len() > 0 {
        lemma_places(policies.drop_last(), is_running);
    }
}

/// Decides on the starts in a buffer, each by its overlap policy.
///
/// `is_running` says whether an earlier start is still running, `resolve` what the policy of a
/// start stands for: the schedule's default for one that was left open.
pub fn process_buffer<T, F>(buffer: &[T], is_running: bool, resolve: F) -> (r: ProcessBufferResult<
    T,
>) where T: Overlappable, F: Fn(ScheduleOverlapPolicy) -> ScheduleOverlapPolicy
    requires
        forall|policy: ScheduleOverlapPolicy| #[trigger] call_requires(resolve, (policy,)),
        buffer@.len() <= i64::MAX,
    ensures
        is_processed(r, buffer@, is_running, resolve),
{
    let mut action = ProcessBufferResult {
        overlapping_starts: Vec::new(),
        non_overlapping_start: None,
        new_buffer: Vec::new(),
        need_cancel: false,
        need_terminate: false,
        overlap_skipped: 0,
        overlap_skipped_by_policy: BTreeMap::new(),
    };
    let ghost mut policies: Seq<ScheduleOverlapPolicy> = Seq::empty();
    let mut i: usize = 0;
    while i < buffer.len()
        invariant
            i <= buffer.len(),
            buffer@.len() <= i64::MAX,
            forall|policy: ScheduleOverlapPolicy| #[trigger] call_requires(resolve, (policy,)),
            are_resolved(policies, buffer@.take(i as int), resolve),
            is_outcome(action, buffer@, policies, decide_each(policies, is_running)),
        decreases buffer.len() - i,
    {
        let start = &buffer[i];
        let own = start.overlap_policy();
        let policy = resolve(own);
        let ghost before = policies;
        let ghost d = decide_each(before, is_running);
        proof {
            policies = before.push(policy);
            assert(policies.drop_last() == before);
            assert(decide_each(policies, is_running) == decide_one(
                d,
                i as int,
                policy,
                is_running,
            ));
            lemma_places(before, is_running);
            lemma_counts_go_by_places(d.skipped, policies, i as int);
            assert(policies.take(i as int) == before);
            lemma_counts_are_bounded(d.skipped, policies, policy.code());
            assert(d.skipped.push(i as int).drop_last() == d.skipped);
            assert(policies[i as int] == policy);
            assert(resolves_to(buffer@[i as int], resolve, policy));
            assert forall|j: int| 0 <= j < i + 1 implies resolves_to(
                buffer@[j],
                resolve,
                #[trigger] policies[j],
            ) by {
                if j < i {
                    assert(resolves_to(buffer@.take(i as int)[j], resolve, before[j]));
                }
            }
        }
        if policy == ScheduleOverlapPolicy::AllowAll {
            action.overlapping_starts.push(start.clone());
        } else if !is_running && action.non_overlapping_start.is_none() {
            action.non_overlapping_start = Some(start.clone());
        } else {
            match policy {
                ScheduleOverlapPolicy::Skip => {
                    action.overlap_skipped = action.overlap_skipped + 1;
                    count_one(&mut action.overlap_skipped_by_policy, policy.number());
                },
                ScheduleOverlapPolicy::BufferOne => {
                    if action.new_buffer.len() == 0 {
                        action.new_buffer.push(start.clone());
                    } else {
                        action.overlap_skipped = action.overlap_skipped + 1;
                        count_one(&mut action.overlap_skipped_by_policy, policy.number());
                    }
                },
                ScheduleOverlapPolicy::BufferAll => {
                    action.new_buffer.push(start.clone());
                },
                ScheduleOverlapPolicy::CancelOther => {
                    if is_running {
                        action.need_cancel = true;
                        action.new_buffer.push(start.clone());
                    } else {
                        action.non_overlapping_start = Some(start.clone());
                    }
                },
                ScheduleOverlapPolicy::TerminateOther => {
                    if is_running {
                        action.need_terminate = true;
                        action.new_buffer.push(start.clone());
                    } else {
                        action.non_overlapping_start = Some(start.clone());
                    }
                },
                ScheduleOverlapPolicy::Unspecified => {},
                ScheduleOverlapPolicy::AllowAll => {},
            }
        }
        i = i + 1;
    }
    assert(buffer@.take(buffer@.len() as int) == buffer@);
    if action.need_cancel || action.need_terminate {
        action.overlapping_starts = Vec::new();
    }
    assert(is_outcome(action, buffer@, policies, decide(policies, is_running)));
    action
}

// ---------------------------------------------------------------------------
// Laws
// ---------------------------------------------------------------------------

/// If what is running is to be cancelled or terminated, nothing starts beside it.
pub proof fn law_cancelling_clears_the_overlapping_starts(
    policies: Seq<ScheduleOverlapPolicy>,
    is_running: bool,
)
    ensures
        ({
            let d = decide(policies, is_running);
            d.cancel || d.terminate ==> d.overlapping.len() == 0
        }),
{
}

/// While something is running, only starts that may run beside it start. While nothing is
/// running, nothing is cancelled or terminated, and one start runs if any is not of the kind that
/// may run beside others.
pub proof fn law_one_at_a_time(policies: Seq<ScheduleOverlapPolicy>, is_running: bool)
    ensures
        ({
            let d = decide(policies, is_running);
            &&& is_running ==> d.non_overlapping is None
            &&& !is_running ==> !d.cancel && !d.terminate
            &&& !is_running ==> (d.non_overlapping is Some <==> exists|i: int|
                0 <= i < policies.len() && #[trigger] policies[i]
                    != ScheduleOverlapPolicy::AllowAll)
        }),
    decreases policies.len(),
{
    if policies.len() > 0 {
        let before = policies.drop_last();
        law_one_at_a_time(before, is_running);
        if !is_running {
            if exists|i: int|
                0 <= i < before.len() && #[trigger] before[i] != ScheduleOverlapPolicy::AllowAll {
                let i = choose|i: int|
                    0 <= i < before.len() && #[trigger] before[i]
                        != ScheduleOverlapPolicy::AllowAll;
                assert(policies[i] != ScheduleOverlapPolicy::AllowAll);
            }
            if exists|i: int|
                0 <= i < policies.len() && #[trigger] policies[i]
                    != ScheduleOverlapPolicy::AllowAll {
                let i = choose|i: int|
                    0 <= i < policies.len() && #[trigger] policies[i]
                        != ScheduleOverlapPolicy::AllowAll;
                if i < before.len() {
                    assert(before[i] != ScheduleOverlapPolicy::AllowAll);
                } else {
                    assert(policies.last() != ScheduleOverlapPolicy::AllowAll);
                }
            }
            if policies.last() != ScheduleOverlapPolicy::AllowAll {
                assert(policies[policies.len() - 1] != ScheduleOverlapPolicy::AllowAll);
            }
        }
    }
}

/// What is running is cancelled if and only if one of the starts asks for it, and terminated
/// likewise.
pub proof fn law_cancelled_on_request_only(policies: Seq<ScheduleOverlapPolicy>)
    ensures
        decide(policies, true).cancel <==> policies.contains(ScheduleOverlapPolicy::CancelOther),
        decide(policies, true).terminate <==> policies.contains(
            ScheduleOverlapPolicy::TerminateOther,
        ),
    decreases policies.len(),
{
    if policies.len() > 0 {
        let before = policies.drop_last();
        law_cancelled_on_request_only(before);
        lemma_contains_last(policies, ScheduleOverlapPolicy::CancelOther);
        lemma_contains_last(policies, ScheduleOverlapPolicy::TerminateOther);
    }
}

/// A row contains a value if it is the last, or if the rest contains it.
proof fn lemma_contains_last(
    policies: Seq<ScheduleOverlapPolicy>,
    policy: ScheduleOverlapPolicy,
)
    requires
        policies.len() > 0,
    ensures
        policies.contains(policy) <==> policies.last() == policy || policies.drop_last().contains(
            policy,
        ),
{
    let before = policies.drop_last();
    if policies.contains(policy) {
        let i = choose|i: int| 0 <= i < policies.len() && policies[i] == policy;
        if i < before.len() {
            assert(before[i] == policy);
        }
    }
    if before.contains(policy) {
        let i = choose|i: int| 0 <= i < before.len() && before[i] == policy;
        assert(policies[i] == policy);
    }
    if policies.last() == policy {
        assert(policies[policies.len() - 1] == policy);
    }
}

/// While something is running, every start with a policy is accounted for: it may run beside, it
/// waits or it is dropped.
pub proof fn law_every_start_is_accounted_for(policies: Seq<ScheduleOverlapPolicy>)
    requires
        !policies.contains(ScheduleOverlapPolicy::Unspecified),
    ensures
        ({
            let d = decide_each(policies, true);
            d.overlapping.len() + d.waiting.len() + d.skipped.len() == policies.len()
        }),
    decreases policies.len(),
{
    if policies.len() > 0 {
        law_one_at_a_time(policies.drop_last(), true);
        lemma_contains_last(policies, ScheduleOverlapPolicy::Unspecified);
        law_every_start_is_accounted_for(policies.drop_last());
    }
}

/// Under policies that keep at most one start waiting, at most one waits.
pub proof fn law_buffer_one_keeps_one(policies: Seq<ScheduleOverlapPolicy>, is_running: bool)
    requires
        !policies.contains(ScheduleOverlapPolicy::BufferAll),
        !policies.contains(ScheduleOverlapPolicy::CancelOther),
        !policies.contains(ScheduleOverlapPolicy::TerminateOther),
    ensures
        decide(policies, is_running).waiting.len() <= 1,
    decreases policies.len(),
{
    if policies.len() > 0 {
        lemma_contains_last(policies, ScheduleOverlapPolicy::BufferAll);
        lemma_contains_last(policies, ScheduleOverlapPolicy::CancelOther);
        lemma_contains_last(policies, ScheduleOverlapPolicy::TerminateOther);
        law_buffer_one_keeps_one(policies.drop_last(), is_running);
    }
}

/// Only starts that are to be skipped, or of which one at most may wait, are dropped.
pub proof fn law_only_skipped_policies_are_dropped(
    policies: Seq<ScheduleOverlapPolicy>,
    is_running: bool,
    j: int,
)
    requires
        0 <= j < decide(policies, is_running).skipped.len(),
    ensures
        ({
            let i = decide(policies, is_running).skipped[j];
            &&& 0 <= i < policies.len()
            &&& policies[i] == ScheduleOverlapPolicy::Skip || policies[i]
                == ScheduleOverlapPolicy::BufferOne
        }),
    decreases policies.len(),
{
    if policies.len() > 0 {
        let before = decide_each(policies.drop_last(), is_running).skipped;
        if j < before.len() {
            law_only_skipped_policies_are_dropped(policies.drop_last(), is_running, j);
        }
    }
}

/// The starts that may run beside any other all start, in their order, unless something is
/// cancelled or terminated.
pub proof fn law_allow_all_starts_all(
    policies: Seq<ScheduleOverlapPolicy>,
    is_running: bool,
    i: int,
)
    requires
        0 <= i < policies.len(),
    ensures
        decide_each(policies, is_running).overlapping.contains(i) <==> policies[i]
            == ScheduleOverlapPolicy::AllowAll,
    decreases policies.len(),
{
    let before = policies.drop_last();
    let d = decide_each(before, is_running);
    let now = decide_each(policies, is_running).overlapping;
    lemma_places(before, is_running);
    if i < before.len() {
        law_allow_all_starts_all(before, is_running, i);
        if d.overlapping.contains(i) {
            let j = choose|j: int| 0 <= j < d.overlapping.len() && d.overlapping[j] == i;
            assert(now[j] == i);
        }
        if now.contains(i) {
            let j = choose|j: int| 0 <= j < now.len() && now[j] == i;
            assert(d.overlapping[j] == i);
        }
    } else {
        if policies[i] == ScheduleOverlapPolicy::AllowAll {
            assert(now[now.len() - 1] == i);
        } else {
            assert(now == d.overlapping);
        }
    }
}

/// Starts keep their order, those that start as well as those that wait.
pub proof fn law_starts_keep_their_order(
    policies: Seq<ScheduleOverlapPolicy>,
    is_running: bool,
)
    ensures
        ({
            let d = decide_each(policies, is_running);
            &&& forall|j: int, k: int|
                0 <= j < k < d.overlapping.len() ==> #[trigger] d.overlapping[j]
                    < #[trigger] d.overlapping[k]
            &&& forall|j: int, k: int|
                0 <= j < k < d.waiting.len() ==> #[trigger] d.waiting[j]
                    < #[trigger] d.waiting[k]
        }),
    decreases policies.len(),
{
    if policies.len() > 0 {
        law_starts_keep_their_order(policies.drop_last(), is_running);
        lemma_places(policies.drop_last(), is_running);
    }
}

/// Whether a start with the policy takes the place of another.
pub open spec fn preempts(policy: ScheduleOverlapPolicy) -> bool {
    policy == ScheduleOverlapPolicy::CancelOther || policy == ScheduleOverlapPolicy::TerminateOther
}

/// While nothing is running, the start that runs is the first that may not run beside others, or
/// the last that takes the place of another.
pub proof fn law_the_last_to_preempt_runs(policies: Seq<ScheduleOverlapPolicy>, k: int)
    requires
        0 <= k < policies.len(),
        policies[k] != ScheduleOverlapPolicy::AllowAll,
    ensures
        decide(policies, false).non_overlapping matches Some(i) && {
            &&& 0 <= i < policies.len()
            &&& policies[i] != ScheduleOverlapPolicy::AllowAll
            &&& k > i ==> !preempts(policies[k])
            &&& k < i ==> preempts(policies[i])
        },
    decreases policies.len(),
{
    let before = policies.drop_last();
    lemma_places(before, false);
    if k < before.len() {
        law_the_last_to_preempt_runs(before, k);
    } else {
        let d = decide_each(before, false);
        if d.non_overlapping is Some {
            law_one_at_a_time(before, false);
            let j = choose|j: int|
                0 <= j < before.len() && #[trigger] before[j] != ScheduleOverlapPolicy::AllowAll;
            law_the_last_to_preempt_runs(before, j);
        }
    }
    law_one_at_a_time(policies, false);
}

/// The policies of the starts at the given places.
pub open spec fn policies_at(
    policies: Seq<ScheduleOverlapPolicy>,
    places: Seq<int>,
) -> Seq<ScheduleOverlapPolicy> {
    Seq::new(places.len(), |j: int| policies[places[j]])
}

/// Whether a start with the policy waits behind `waiting` others while something is running.
spec fn waits_behind(policy: ScheduleOverlapPolicy, waiting: int) -> bool {
    ||| policy == ScheduleOverlapPolicy::BufferAll
    ||| policy == ScheduleOverlapPolicy::BufferOne && waiting == 0
    ||| preempts(policy)
}

/// Each start that waits may wait behind those that wait before it.
proof fn lemma_waiting(policies: Seq<ScheduleOverlapPolicy>, is_running: bool, j: int)
    requires
        0 <= j < decide_each(policies, is_running).waiting.len(),
    ensures
        waits_behind(policies[decide_each(policies, is_running).waiting[j]], j),
    decreases policies.len(),
{
    let before = policies.drop_last();
    lemma_places(before, is_running);
    if j < decide_each(before, is_running).waiting.len() {
        lemma_waiting(before, is_running, j);
    }
}

/// A start that takes the place of another waits while something is running.
proof fn lemma_preempting_waits(policies: Seq<ScheduleOverlapPolicy>, i: int)
    requires
        0 <= i < policies.len(),
        preempts(policies[i]),
    ensures
        decide_each(policies, true).waiting.contains(i),
    decreases policies.len(),
{
    let before = policies.drop_last();
    let now = decide_each(policies, true).waiting;
    law_one_at_a_time(before, true);
    if i < before.len() {
        lemma_preempting_waits(before, i);
        let old_waiting = decide_each(before, true).waiting;
        let j = choose|j: int| 0 <= j < old_waiting.len() && old_waiting[j] == i;
        assert(now[j] == i);
    } else {
        assert(now[now.len() - 1] == i);
    }
}

/// A start takes the place of another in the same way if it waits again.
proof fn lemma_waiting_contains(
    policies: Seq<ScheduleOverlapPolicy>,
    policy: ScheduleOverlapPolicy,
)
    requires
        preempts(policy),
    ensures
        policies.contains(policy) <==> policies_at(
            policies,
            decide_each(policies, true).waiting,
        ).contains(policy),
{
    let waiting = decide_each(policies, true).waiting;
    let kept = policies_at(policies, waiting);
    lemma_places(policies, true);
    if policies.contains(policy) {
        let i = choose|i: int| 0 <= i < policies.len() && policies[i] == policy;
        lemma_preempting_waits(policies, i);
        let j = choose|j: int| 0 <= j < waiting.len() && waiting[j] == i;
        assert(kept[j] == policy);
    }
    if kept.contains(policy) {
        let j = choose|j: int| 0 <= j < kept.len() && kept[j] == policy;
        assert(policies[waiting[j]] == policy);
    }
}

/// Starts each of which may wait behind the others all wait.
proof fn lemma_all_wait(policies: Seq<ScheduleOverlapPolicy>)
    requires
        forall|j: int| 0 <= j < policies.len() ==> waits_behind(#[trigger] policies[j], j),
    ensures
        ({
            let d = decide_each(policies, true);
            &&& d.overlapping == Seq::<int>::empty()
            &&& d.non_overlapping is None
            &&& d.waiting == Seq::new(policies.len(), |j: int| j)
            &&& d.skipped == Seq::<int>::empty()
        }),
    decreases policies.len(),
{
    if policies.len() > 0 {
        lemma_all_wait(policies.drop_last());
        assert(waits_behind(policies[policies.len() - 1], policies.len() - 1));
    }
}

/// While nothing is running, no start that takes the place of another waits.
proof fn lemma_none_preempts(policies: Seq<ScheduleOverlapPolicy>, j: int)
    requires
        0 <= j < decide_each(policies, false).waiting.len(),
    ensures
        !preempts(policies[decide_each(policies, false).waiting[j]]),
    decreases policies.len(),
{
    let before = policies.drop_last();
    lemma_places(before, false);
    if j < decide_each(before, false).waiting.len() {
        lemma_none_preempts(before, j);
    }
}

/// While something is running, deciding once more on the starts that go on waiting changes
/// nothing: all of them go on waiting, in their order, and none is dropped. What is running is
/// cancelled or terminated as it was to be before.
pub proof fn law_waiting_starts_go_on_waiting(
    policies: Seq<ScheduleOverlapPolicy>,
    is_running: bool,
)
    ensures
        ({
            let d = decide(policies, is_running);
            let again = decide(policies_at(policies, d.waiting), true);
            &&& again.waiting == Seq::new(d.waiting.len(), |j: int| j)
            &&& again.overlapping == Seq::<int>::empty()
            &&& again.non_overlapping is None
            &&& again.skipped == Seq::<int>::empty()
            &&& again.cancel == d.cancel
            &&& again.terminate == d.terminate
        }),
{
    let d = decide(policies, is_running);
    let kept = policies_at(policies, d.waiting);
    assert forall|j: int| 0 <= j < kept.len() implies waits_behind(#[trigger] kept[j], j) by {
        lemma_waiting(policies, is_running, j);
    }
    lemma_all_wait(kept);
    law_cancelled_on_request_only(kept);
    if is_running {
        law_cancelled_on_request_only(policies);
        lemma_waiting_contains(policies, ScheduleOverlapPolicy::CancelOther);
        lemma_waiting_contains(policies, ScheduleOverlapPolicy::TerminateOther);
    } else {
        law_one_at_a_time(policies, false);
        assert forall|j: int| 0 <= j < kept.len() implies !preempts(#[trigger] kept[j]) by {
            lemma_none_preempts(policies, j);
        }
    }
}

/// Whether a start has one policy, and its clones have the same.
pub open spec fn has_steady_policies<T, F>(resolve: F) -> bool where
    T: Overlappable,
    F: Fn(ScheduleOverlapPolicy) -> ScheduleOverlapPolicy,
 {
    forall|a: T, b: T, p: ScheduleOverlapPolicy, q: ScheduleOverlapPolicy|
        (a == b || cloned(a, b)) && #[trigger] resolves_to(a, resolve, p) && #[trigger] resolves_to(
            b,
            resolve,
            q,
        ) ==> p == q
}

/// While something is running, processing once more the starts that go on waiting changes
/// nothing: they are kept, in their order, nothing starts and none is dropped. What is running is
/// cancelled or terminated as it was to be before.
///
/// What is kept are clones of the starts: the same starts, where a clone is the same.
pub proof fn law_processing_again_keeps_the_buffer<T, F>(
    buffer: Seq<T>,
    is_running: bool,
    resolve: F,
    first: ProcessBufferResult<T>,
    again: ProcessBufferResult<T>,
) where T: Overlappable, F: Fn(ScheduleOverlapPolicy) -> ScheduleOverlapPolicy
    requires
        has_steady_policies::<T, F>(resolve),
        is_processed(first, buffer, is_running, resolve),
        is_processed(again, first.new_buffer@, true, resolve),
    ensures
        are_clones(
            again.new_buffer@,
            first.new_buffer@,
            Seq::new(first.new_buffer@.len(), |j: int| j),
        ),
        (forall|a: T, b: T| #[trigger] cloned(a, b) ==> a == b) ==> again.new_buffer@
            == first.new_buffer@,
        again.overlapping_starts@.len() == 0,
        again.non_overlapping_start is None,
        again.overlap_skipped == 0,
        again.overlap_skipped_by_policy@ == Map::<u8, i64>::empty(),
        again.need_cancel == first.need_cancel,
        again.need_terminate == first.need_terminate,
{
    let policies = choose|policies: Seq<ScheduleOverlapPolicy>|
        are_resolved(policies, buffer, resolve) && is_outcome(
            first,
            buffer,
            policies,
            #[trigger] decide(policies, is_running),
        );
    let later = choose|later: Seq<ScheduleOverlapPolicy>|
        are_resolved(later, first.new_buffer@, resolve) && is_outcome(
            again,
            first.new_buffer@,
            later,
            #[trigger] decide(later, true),
        );
    let waiting = decide(policies, is_running).waiting;
    let kept = policies_at(policies, waiting);
    lemma_places(policies, is_running);
    assert forall|j: int| 0 <= j < kept.len() implies #[trigger] kept[j] == later[j] by {
        let i = waiting[j];
        assert(cloned(buffer[i], first.new_buffer@[j]));
        assert(resolves_to(buffer[i], resolve, policies[i]));
        assert(resolves_to(first.new_buffer@[j], resolve, later[j]));
    }
    assert(kept == later);
    law_waiting_starts_go_on_waiting(policies, is_running);
    if forall|a: T, b: T| #[trigger] cloned(a, b) ==> a == b {
        assert forall|j: int| 0 <= j < first.new_buffer@.len() implies #[trigger]
            again.new_buffer@[j] == first.new_buffer@[j] by {
            assert(cloned(first.new_buffer@[j], again.new_buffer@[j]));
        }
    }
}

} // verus!
