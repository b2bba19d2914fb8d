//! What becomes of starts that overlap.
use vstd::pervasive::cloned;
use vstd::prelude::*;

use crate::buffer::{
    are_resolved, counts_by_policy, decide, decide_each, decide_one, has_steady_policies,
    is_outcome, is_processed, law_one_at_a_time, lemma_places, resolves_to, Overlappable,
    ProcessBufferResult,
};
use crate::types::ScheduleOverlapPolicy;

verus! {

/// What the starts before place `i` are decided on is the same, whatever comes after them.
proof fn lemma_by_place(policies: Seq<ScheduleOverlapPolicy>, is_running: bool, i: int)
    requires
        0 <= i < policies.len(),
    ensures
        ({
            let d = decide_each(policies, is_running);
            let before = decide_each(policies.take(i), is_running);
            let now = decide_one(before, i, policies[i], is_running);
            &&& d.waiting.contains(i) <==> now.waiting.contains(i)
            &&& d.skipped.contains(i) <==> now.skipped.contains(i)
            &&& d.overlapping.contains(i) <==> now.overlapping.contains(i)
        }),
    decreases policies.len(),
{
    let front = policies.drop_last();
    let d = decide_each(policies, is_running);
    let e = decide_each(front, is_running);
    lemma_places(front, is_running);
    if i < front.len() {
        lemma_by_place(front, is_running, i);
        assert(front.take(i) == policies.take(i));
        lemma_pushed(e.waiting, d.waiting, front.len() as int, i);
        lemma_pushed(e.skipped, d.skipped, front.len() as int, i);
        lemma_pushed(e.overlapping, d.overlapping, front.len() as int, i);
    } else {
        assert(policies.take(i) == front);
    }
}

/// A row that another place was appended to, or none, has the places it had.
proof fn lemma_pushed(before: Seq<int>, after: Seq<int>, last: int, i: int)
    requires
        after == before || after == before.push(last),
        i != last,
    ensures
        after.contains(i) <==> before.contains(i),
{
    if before.contains(i) {
        let j = choose|j: int| 0 <= j < before.len() && before[j] == i;
        assert(after[j] == i);
    }
    if after.contains(i) {
        let j = choose|j: int| 0 <= j < after.len() && after[j] == i;
        assert(before[j] == i);
    }
}

/// The last place that was appended to a row is in it; one that is greater than all is not.
proof fn lemma_in_row(row: Seq<int>, i: int)
    requires
        forall|j: int| 0 <= j < row.len() ==> #[trigger] row[j] < i,
    ensures
        !row.contains(i),
        row.push(i).contains(i),
{
    assert(row.push(i)[row.len() as int] == i);
}

/// Nothing waits yet if and only if none of the starts so far is in the row of those that wait.
proof fn lemma_none_waits(policies: Seq<ScheduleOverlapPolicy>, is_running: bool, i: int)
    requires
        0 <= i <= policies.len(),
    ensures
        decide_each(policies.take(i), is_running).waiting.len() == 0 <==> forall|j: int|
            0 <= j < i ==> !#[trigger] decide_each(policies, is_running).waiting.contains(j),
    decreases i,
{
    let before = decide_each(policies.take(i), is_running);
    let whole = decide_each(policies, is_running);
    lemma_places(policies.take(i), is_running);
    assert forall|j: int| 0 <= j < i implies (#[trigger] whole.waiting.contains(j)
        <==> before.waiting.contains(j)) by {
        lemma_by_place(policies, is_running, j);
        lemma_by_place(policies.take(i), is_running, j);
        assert(policies.take(i).take(j) == policies.take(j));
    }
    if before.waiting.len() > 0 {
        let j = before.waiting[0];
        assert(before.waiting.contains(j));
        assert(whole.waiting.contains(j));
    }
}

/// Whether all starts before place `i` may run beside any other, is what decides whether nothing
/// has been found to run yet.
proof fn lemma_nothing_runs_yet(policies: Seq<ScheduleOverlapPolicy>, i: int)
    requires
        0 <= i <= policies.len(),
    ensures
        decide_each(policies.take(i), false).non_overlapping is None <==> forall|j: int|
            0 <= j < i ==> #[trigger] policies[j] == ScheduleOverlapPolicy::AllowAll,
{
    let front = policies.take(i);
    law_one_at_a_time(front, false);
    if exists|j: int| 0 <= j < front.len() && #[trigger] front[j] != ScheduleOverlapPolicy::AllowAll
    {
        let j = choose|j: int|
            0 <= j < front.len() && #[trigger] front[j] != ScheduleOverlapPolicy::AllowAll;
        assert(policies[j] != ScheduleOverlapPolicy::AllowAll);
    } else {
        assert forall|j: int| 0 <= j < i implies #[trigger] policies[j]
            == ScheduleOverlapPolicy::AllowAll by {
            assert(front[j] == policies[j]);
        }
    }
}

/// Which starts wait. While something is running: every one that is to be buffered, every one that
/// cancels or terminates what is running, and one of which one at most may wait if none waits yet.
/// While nothing is running: the same ones but for those that cancel or terminate, and but for the
/// first start that may not run beside others, which runs.
pub proof fn law_who_waits(policies: Seq<ScheduleOverlapPolicy>, is_running: bool, i: int)
    requires
        0 <= i < policies.len(),
    ensures
        decide(policies, is_running).waiting.contains(i) <==> {
            &&& is_running || exists|j: int|
                0 <= j < i && #[trigger] policies[j] != ScheduleOverlapPolicy::AllowAll
            &&& {
                ||| policies[i] == ScheduleOverlapPolicy::BufferAll
                ||| policies[i] == ScheduleOverlapPolicy::BufferOne && forall|j: int|
                    0 <= j < i ==> !#[trigger] decide(policies, is_running).waiting.contains(j)
                ||| is_running && policies[i] == ScheduleOverlapPolicy::CancelOther
                ||| is_running && policies[i] == ScheduleOverlapPolicy::TerminateOther
            }
        },
{
    let before = decide_each(policies.take(i), is_running);
    lemma_by_place(policies, is_running, i);
    lemma_places(policies.take(i), is_running);
    lemma_in_row(before.waiting, i);
    lemma_none_waits(policies, is_running, i);
    lemma_nothing_runs_yet(policies, i);
    assert(decide(policies, is_running).waiting == decide_each(policies, is_running).waiting);
}

/// Which starts are dropped and counted: those that are to be skipped and those of which one at
/// most may wait, if they do not wait and are not, while nothing is running, the first start that
/// may not run beside others.
pub proof fn law_who_is_dropped(policies: Seq<ScheduleOverlapPolicy>, is_running: bool, i: int)
    requires
        0 <= i < policies.len(),
    ensures
        decide(policies, is_running).skipped.contains(i) <==> {
            &&& is_running || exists|j: int|
                0 <= j < i && #[trigger] policies[j] != ScheduleOverlapPolicy::AllowAll
            &&& {
                ||| policies[i] == ScheduleOverlapPolicy::Skip
                ||| policies[i] == ScheduleOverlapPolicy::BufferOne && exists|j: int|
                    0 <= j < i && #[trigger] decide(policies, is_running).waiting.contains(j)
            }
        },
{
    let before = decide_each(policies.take(i), is_running);
    lemma_by_place(policies, is_running, i);
    lemma_places(policies.take(i), is_running);
    lemma_in_row(before.skipped, i);
    lemma_none_waits(policies, is_running, i);
    lemma_nothing_runs_yet(policies, i);
    assert(decide(policies, is_running).waiting == decide_each(policies, is_running).waiting);
    assert(decide(policies, is_running).skipped == decide_each(policies, is_running).skipped);
}

/// Which starts run beside any other: all that may, unless what is running is to be cancelled or
/// terminated, which it is if and only if it is running and a start asks for it.
pub proof fn law_who_runs_beside(policies: Seq<ScheduleOverlapPolicy>, is_running: bool, i: int)
    requires
        0 <= i < policies.len(),
    ensures
        ({
            let d = decide(policies, is_running);
            &&& d.overlapping.contains(i) <==> policies[i] == ScheduleOverlapPolicy::AllowAll
                && !d.cancel && !d.terminate
            &&& d.cancel <==> is_running && policies.contains(ScheduleOverlapPolicy::CancelOther)
            &&& d.terminate <==> is_running && policies.contains(
                ScheduleOverlapPolicy::TerminateOther,
            )
        }),
{
    let before = decide_each(policies.take(i), is_running);
    lemma_by_place(policies, is_running, i);
    lemma_places(policies.take(i), is_running);
    lemma_in_row(before.overlapping, i);
    law_one_at_a_time(policies, is_running);
    crate::buffer::law_cancelled_on_request_only(policies);
}

/// Which start runs alone: none while something is running. While nothing is running, the last one
/// that cancels or terminates others if it comes after the first that may not run beside others,
/// else that first one.
pub proof fn law_who_runs_alone(policies: Seq<ScheduleOverlapPolicy>, is_running: bool, i: int)
    requires
        0 <= i < policies.len(),
    ensures
        decide(policies, is_running).non_overlapping == Some(i) <==> {
            &&& !is_running
            &&& policies[i] != ScheduleOverlapPolicy::AllowAll
            &&& forall|k: int|
                i < k < policies.len() ==> #[trigger] policies[k]
                    != ScheduleOverlapPolicy::CancelOther && policies[k]
                    != ScheduleOverlapPolicy::TerminateOther
            &&& {
                ||| policies[i] == ScheduleOverlapPolicy::CancelOther
                ||| policies[i] == ScheduleOverlapPolicy::TerminateOther
                ||| forall|j: int|
                    0 <= j < i ==> #[trigger] policies[j] == ScheduleOverlapPolicy::AllowAll
            }
        },
    decreases policies.len(),
{
    law_one_at_a_time(policies, is_running);
    if !is_running {
        let front = policies.drop_last();
        let last = policies.len() - 1;
        lemma_places(front, false);
        lemma_nothing_runs_yet(policies, last);
        assert(policies.take(last) == front);
        assert forall|k: int| 0 <= k < front.len() implies #[trigger] front[k] == policies[k] by {}
        if i < last {
            law_who_runs_alone(front, false, i);
            assert(front[i] == policies[i]);
            assert((forall|j: int|
                0 <= j < i ==> #[trigger] policies[j] == ScheduleOverlapPolicy::AllowAll) <==> (
            forall|j: int| 0 <= j < i ==> #[trigger] front[j] == ScheduleOverlapPolicy::AllowAll))
                by {
                if forall|j: int|
                    0 <= j < i ==> #[trigger] front[j] == ScheduleOverlapPolicy::AllowAll {
                    assert forall|j: int| 0 <= j < i implies #[trigger] policies[j]
                        == ScheduleOverlapPolicy::AllowAll by {
                        assert(front[j] == policies[j]);
                    }
                }
            }
            lemma_none_preempts_after(policies, i);
        }
    }
}

/// No start after place `i` cancels or terminates if the last does not and none before it does.
proof fn lemma_none_preempts_after(policies: Seq<ScheduleOverlapPolicy>, i: int)
    requires
        0 <= i < policies.len() - 1,
    ensures
        (forall|k: int|
            i < k < policies.len() ==> #[trigger] policies[k] != ScheduleOverlapPolicy::CancelOther
                && policies[k] != ScheduleOverlapPolicy::TerminateOther) <==> {
            let front = policies.drop_last();
            let last = policies.last();
            &&& last != ScheduleOverlapPolicy::CancelOther
            &&& last != ScheduleOverlapPolicy::TerminateOther
            &&& forall|k: int|
                i < k < front.len() ==> #[trigger] front[k] != ScheduleOverlapPolicy::CancelOther
                    && front[k] != ScheduleOverlapPolicy::TerminateOther
        },
{
    let front = policies.drop_last();
    let last = policies.last();
    if forall|k: int|
        i < k < policies.len() ==> #[trigger] policies[k] != ScheduleOverlapPolicy::CancelOther
            && policies[k] != ScheduleOverlapPolicy::TerminateOther {
        assert(policies[policies.len() - 1] == last);
        assert forall|k: int| i < k < front.len() implies #[trigger] front[k]
            != ScheduleOverlapPolicy::CancelOther && front[k]
            != ScheduleOverlapPolicy::TerminateOther by {
            assert(policies[k] == front[k]);
        }
    }
    if last != ScheduleOverlapPolicy::CancelOther && last
        != ScheduleOverlapPolicy::TerminateOther && (forall|k: int|
        i < k < front.len() ==> #[trigger] front[k] != ScheduleOverlapPolicy::CancelOther
            && front[k] != ScheduleOverlapPolicy::TerminateOther) {
        assert forall|k: int| i < k < policies.len() implies #[trigger] policies[k]
            != ScheduleOverlapPolicy::CancelOther && policies[k]
            != ScheduleOverlapPolicy::TerminateOther by {
            if k < front.len() {
                assert(policies[k] == front[k]);
            }
        }
    }
}

/// The places of those that run, of those that wait and of those that are dropped come in their
/// order, each once. Each is the place of a start.
pub proof fn law_rows_are_in_order(policies: Seq<ScheduleOverlapPolicy>, is_running: bool)
    ensures
        ({
            let d = decide(policies, is_running);
            &&& forall|j: int, k: int|
                0 <= j < k < d.overlapping.len() ==> 0 <= #[trigger] d.overlapping[j]
                    < #[trigger] d.overlapping[k] < policies.len()
            &&& forall|j: int, k: int|
                0 <= j < k < d.waiting.len() ==> 0 <= #[trigger] d.waiting[j]
                    < #[trigger] d.waiting[k] < policies.len()
            &&& forall|j: int, k: int|
                0 <= j < k < d.skipped.len() ==> 0 <= #[trigger] d.skipped[j]
                    < #[trigger] d.skipped[k] < policies.len()
        }),
{
    lemma_rows_are_in_order(policies, is_running);
    lemma_places(policies, is_running);
    let d = decide(policies, is_running);
    let each = decide_each(policies, is_running);
    assert(d.waiting == each.waiting && d.skipped == each.skipped);
    assert(d.overlapping == each.overlapping || d.overlapping.len() == 0);
}

/// The same, before anything is cancelled.
proof fn lemma_rows_are_in_order(policies: Seq<ScheduleOverlapPolicy>, is_running: bool)
    ensures
        ({
            let d = decide_each(policies, is_running);
            &&& forall|j: int, k: int|
                0 <= j < k < d.overlapping.len() ==> 0 <= #[trigger] d.overlapping[j]
                    < #[trigger] d.overlapping[k] < policies.len()
            &&& forall|j: int, k: int|
                0 <= j < k < d.waiting.len() ==> 0 <= #[trigger] d.waiting[j]
                    < #[trigger] d.waiting[k] < policies.len()
            &&& forall|j: int, k: int|
                0 <= j < k < d.skipped.len() ==> 0 <= #[trigger] d.skipped[j]
                    < #[trigger] d.skipped[k] < policies.len()
        }),
    decreases policies.len(),
{
    if policies.len() > 0 {
        lemma_rows_are_in_order(policies.drop_last(), is_running);
        lemma_places(policies.drop_last(), is_running);
    }
}

/// The counts say of each policy's number how many of the places have it, and nothing of a number
/// that none has.
pub proof fn law_counts_are_by_policy(
    places: Seq<int>,
    policies: Seq<ScheduleOverlapPolicy>,
    code: u8,
)
    requires
        places.len() <= i64::MAX,
    ensures
        ({
            let counts = counts_by_policy(places, policies);
            let with_code = places.filter(|i: int| policies[i].code() == code);
            &&& counts.contains_key(code) <==> with_code.len() > 0
            &&& with_code.len() > 0 ==> counts[code] == with_code.len()
        }),
    decreases places.len(),
{
    let p = |i: int| policies[i].code() == code;
    reveal(Seq::filter);
    if places.len() > 0 {
        law_counts_are_by_policy(places.drop_last(), policies, code);
        places.drop_last().lemma_filter_len(p);
    }
}

/// The numbers of the policies.
pub proof fn law_policy_numbers()
    ensures
        ScheduleOverlapPolicy::Unspecified.code() == 0,
        ScheduleOverlapPolicy::Skip.code() == 1,
        ScheduleOverlapPolicy::BufferOne.code() == 2,
        ScheduleOverlapPolicy::BufferAll.code() == 3,
        ScheduleOverlapPolicy::CancelOther.code() == 4,
        ScheduleOverlapPolicy::TerminateOther.code() == 5,
        ScheduleOverlapPolicy::AllowAll.code() == 6,
{
}

/// What is given back is what was decided: a clone of each start that runs, runs alone or waits,
/// in the order of their places, whether what is running is to be cancelled or terminated, and how
/// many starts were dropped, in all and under each policy's number.
///
/// The policies are what the starts' own policies stand for. Each start has one, and its clones
/// have the same.
pub proof fn law_the_result_is_the_decision<T, F>(
    buffer: Seq<T>,
    is_running: bool,
    resolve: F,
    policies: Seq<ScheduleOverlapPolicy>,
    r: ProcessBufferResult<T>,
) where T: Overlappable, F: Fn(ScheduleOverlapPolicy) -> ScheduleOverlapPolicy
    requires
        has_steady_policies::<T, F>(resolve),
        policies.len() == buffer.len() <= i64::MAX,
        forall|i: int|
            0 <= i < buffer.len() ==> exists|own: ScheduleOverlapPolicy| #[trigger]
                call_ensures(T::overlap_policy, (&buffer[i],), own) && call_ensures(
                    resolve,
                    (own,),
                    #[trigger] policies[i],
                ),
        is_processed(r, buffer, is_running, resolve),
    ensures
        ({
            let d = decide(policies, is_running);
            &&& r.overlapping_starts@.len() == d.overlapping.len()
            &&& forall|j: int|
                0 <= j < d.overlapping.len() ==> cloned(
                    buffer[d.overlapping[j]],
                    #[trigger] r.overlapping_starts@[j],
                )
            &&& r.new_buffer@.len() == d.waiting.len()
            &&& forall|j: int|
                0 <= j < d.waiting.len() ==> cloned(
                    buffer[d.waiting[j]],
                    #[trigger] r.new_buffer@[j],
                )
            &&& r.non_overlapping_start is Some <==> d.non_overlapping is Some
            &&& r.non_overlapping_start is Some ==> cloned(
                buffer[d.non_overlapping->Some_0],
                r.non_overlapping_start->Some_0,
            )
            &&& r.need_cancel == d.cancel
            &&& r.need_terminate == d.terminate
            &&& r.overlap_skipped == d.skipped.len()
            &&& forall|code: u8| #[trigger]
                r.overlap_skipped_by_policy@.contains_key(code) <==> exists|j: int|
                    0 <= j < d.skipped.len() && policies[#[trigger] d.skipped[j]].code() == code
            &&& forall|code: u8| #[trigger]
                r.overlap_skipped_by_policy@.contains_key(code)
                    ==> r.overlap_skipped_by_policy@[code] == d.skipped.filter(
                    |i: int| policies[i].code() == code,
                ).len()
        }),
{
    let found = choose|found: Seq<ScheduleOverlapPolicy>|
        are_resolved(found, buffer, resolve) && is_outcome(
            r,
            buffer,
            found,
            #[trigger] decide(found, is_running),
        );
    assert forall|i: int| 0 <= i < buffer.len() implies #[trigger] found[i] == policies[i] by {
        assert(resolves_to(buffer[i], resolve, found[i]));
        let own = choose|own: ScheduleOverlapPolicy| #[trigger]
            call_ensures(T::overlap_policy, (&buffer[i],), own) && call_ensures(
                resolve,
                (own,),
                policies[i],
            );
        assert(call_ensures(T::overlap_policy, (&buffer[i],), own));
        assert(resolves_to(buffer[i], resolve, policies[i]));
    }
    assert(found == policies);
    let d = decide(policies, is_running);
    lemma_places(policies, is_running);
    assert forall|code: u8| #[trigger] r.overlap_skipped_by_policy@.contains_key(code) == exists|
        j: int,
    |
        0 <= j < d.skipped.len() && policies[#[trigger] d.skipped[j]].code() == code by {
        law_counts_are_by_policy(d.skipped, policies, code);
        let p = |i: int| policies[i].code() == code;
        lemma_filter_finds(d.skipped, p);
    }
    assert forall|code: u8| #[trigger]
        r.overlap_skipped_by_policy@.contains_key(code) implies r.overlap_skipped_by_policy@[code]
        == d.skipped.filter(|i: int| policies[i].code() == code).len() by {
        law_counts_are_by_policy(d.skipped, policies, code);
    }
}

/// A filter keeps something if and only if something passes it.
proof fn lemma_filter_finds(s: Seq<int>, p: spec_fn(int) -> bool)
    ensures
        s.filter(p).len() > 0 <==> exists|j: int| 0 <= j < s.len() && p(#[trigger] s[j]),
    decreases s.len(),
{
    reveal(Seq::filter);
    if s.len() > 0 {
        let front = s.drop_last();
        lemma_filter_finds(front, p);
        if exists|j: int| 0 <= j < front.len() && p(#[trigger] front[j]) {
            let j = choose|j: int| 0 <= j < front.len() && p(#[trigger] front[j]);
            assert(p(s[j]));
        }
        if exists|j: int| 0 <= j < s.len() && p(#[trigger] s[j]) {
            let j = choose|j: int| 0 <= j < s.len() && p(#[trigger] s[j]);
            if j < front.len() {
                assert(p(front[j]));
            } else {
                assert(s.last() == s[j]);
            }
        }
        assert(p(s.last()) ==> p(s[s.len() - 1]));
    }
}

} // verus!
