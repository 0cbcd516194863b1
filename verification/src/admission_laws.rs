//! Who is admitted to an overlay, and what every step changes, told by the
//! totals and the limits.

use crate::overlay_budget::{AdmissionOutcome, AdmissionView, BudgetError, OverlayBudgetConfig, PressureLevel, RejectReason, RetainedCategory, RetryReason, WaitStep};
use crate::overlay_budget;
use vstd::prelude::*;

verus! {

/// One more than a count that has not reached the greatest number.
pub open spec fn counted(before: u64, after: u64) -> bool {
    if before < u64::MAX {
        after == before + 1
    } else {
        after == before
    }
}

/// Everything that is retained, and what was ever retained, is as before.
pub open spec fn same_amounts(s: AdmissionView, t: AdmissionView) -> bool {
    &&& t.current == s.current
    &&& t.high == s.high
    &&& t.total == s.total
    &&& t.total_high == s.total_high
    &&& t.build_requested == s.build_requested
}

/// Limits, epoch and state of the controller are as before.
pub open spec fn same_standing(s: AdmissionView, t: AdmissionView) -> bool {
    &&& t.config == s.config
    &&& t.epoch == s.epoch
    &&& t.shutdown == s.shutdown
    &&& t.cancelled == s.cancelled
}

/// The queue is as before.
pub open spec fn same_queue(s: AdmissionView, t: AdmissionView) -> bool {
    t.waiters == s.waiters && t.next_ticket == s.next_ticket
}

/// All categories but one are as before.
pub open spec fn same_beside(s: AdmissionView, t: AdmissionView, cat: RetainedCategory) -> bool {
    &&& t.current.len() == s.current.len()
    &&& t.high.len() == s.high.len()
    &&& forall|c: RetainedCategory| c != cat ==> #[trigger] t.current[c.number()]
        == s.current[c.number()]
    &&& forall|c: RetainedCategory| c != cat ==> #[trigger] t.high[c.number()]
        == s.high[c.number()]
}

/// A mark that covers a level and is the greater of it and the mark before.
pub open spec fn raised(before: u64, level: u64, after: u64) -> bool {
    &&& after >= before
    &&& after >= level
    &&& after == before || after == level
}

/// A level of pressure is that of a total: hard from the hard limit on, soft
/// below it from the soft limit on, normal below both.
pub open spec fn presses(p: PressureLevel, total: u64, c: OverlayBudgetConfig) -> bool {
    &&& p is Hard <==> total >= c.hard_limit_bytes
    &&& p is Soft <==> c.soft_limit_bytes <= total < c.hard_limit_bytes
    &&& p is Normal <==> total < c.soft_limit_bytes && total < c.hard_limit_bytes
}

/// `bytes` were charged to a category: it and the total hold that much more,
/// the marks are raised to them, and nothing else that is retained changed.
pub open spec fn was_charged(
    s: AdmissionView,
    t: AdmissionView,
    cat: RetainedCategory,
    bytes: u64,
) -> bool {
    &&& t.total == s.total + bytes
    &&& t.current[cat.number()] == s.current[cat.number()] + bytes
    &&& raised(s.high[cat.number()], t.current[cat.number()], t.high[cat.number()])
    &&& raised(s.total_high, t.total, t.total_high)
    &&& same_beside(s, t, cat)
    &&& t.build_requested <==> t.total >= s.config.soft_limit_bytes && s.config.soft_limit_bytes > 0
}

/// An open controller that admits a change has room for it, and one that has
/// room for it admits it; one that is larger than the hard limit is refused for
/// good, and all others are told to retry. A closed controller refuses.
pub proof fn lemma_room_decides(s: AdmissionView, cat: RetainedCategory, bytes: u64)
    requires
        overlay_budget::state_ok(s),
    ensures
        !s.shutdown && !s.cancelled ==> {
            let outcome = overlay_budget::admission(s, cat, bytes).0;
            &&& outcome is Admitted <==> s.total + bytes <= s.config.hard_limit_bytes
            &&& outcome == (AdmissionOutcome::Rejected { reason: RejectReason::Oversized })
                <==> bytes > s.config.hard_limit_bytes
            &&& outcome == (AdmissionOutcome::Retryable { reason: RetryReason::HardPressure })
                <==> bytes <= s.config.hard_limit_bytes && s.total + bytes
                > s.config.hard_limit_bytes
        },
        s.shutdown ==> overlay_budget::admission(s, cat, bytes).0 == (AdmissionOutcome::Rejected {
            reason: RejectReason::Shutdown,
        }),
        !s.shutdown && s.cancelled ==> overlay_budget::admission(s, cat, bytes).0 == (AdmissionOutcome::Rejected {
            reason: RejectReason::Cancelled,
        }),
        overlay_budget::attempt(s, cat, bytes).0 == overlay_budget::admission(s, cat, bytes).0,
{
}

/// An admitted change is charged to its category and counted; its outcome names
/// the pressure after it, and asks for a build exactly where it takes the total
/// to the soft limit. A change that is not admitted changes one count.
pub proof fn lemma_attempt_changes(s: AdmissionView, cat: RetainedCategory, bytes: u64)
    requires
        overlay_budget::state_ok(s),
    ensures
        ({
            let (outcome, t) = overlay_budget::admission(s, cat, bytes);
            &&& same_standing(s, t)
            &&& same_queue(s, t)
            &&& t.errors == s.errors
            &&& t.timed_out == s.timed_out
            &&& match outcome {
                AdmissionOutcome::Admitted { pressure, requested_build } => {
                    &&& was_charged(s, t, cat, bytes)
                    &&& counted(s.admitted, t.admitted)
                    &&& t.retryable == s.retryable
                    &&& t.rejected == s.rejected
                    &&& presses(pressure, t.total, s.config)
                    &&& requested_build <==> s.total < s.config.soft_limit_bytes && s.total + bytes
                        >= s.config.soft_limit_bytes
                },
                AdmissionOutcome::Retryable { .. } => {
                    &&& same_amounts(s, t)
                    &&& counted(s.retryable, t.retryable)
                    &&& t.admitted == s.admitted
                    &&& t.rejected == s.rejected
                },
                AdmissionOutcome::Rejected { .. } => {
                    &&& same_amounts(s, t)
                    &&& counted(s.rejected, t.rejected)
                    &&& t.admitted == s.admitted
                    &&& t.retryable == s.retryable
                },
            }
        }),
        overlay_budget::attempt(s, cat, bytes).0 is Retryable ==> overlay_budget::attempt(s, cat, bytes).1 == s,
        !(overlay_budget::attempt(s, cat, bytes).0 is Retryable) ==> overlay_budget::attempt(s, cat, bytes).1 == overlay_budget::admission(
            s,
            cat,
            bytes,
        ).1,
{
    lemma_category_holds_within(s, cat);
    let (outcome, t) = overlay_budget::admission(s, cat, bytes);
    if outcome is Admitted {
        assert forall|c: RetainedCategory| c != cat implies #[trigger] t.current[c.number()]
            == s.current[c.number()] by {
            overlay_budget::lemma_category_numbers_distinct(c, cat);
        }
        assert forall|c: RetainedCategory| c != cat implies #[trigger] t.high[c.number()]
            == s.high[c.number()] by {
            overlay_budget::lemma_category_numbers_distinct(c, cat);
        }
    }
}

proof fn lemma_category_holds_within(s: AdmissionView, cat: RetainedCategory)
    requires
        overlay_budget::state_ok(s),
    ensures
        s.current[cat.number()] <= s.total,
{
    reveal_with_fuel(overlay_budget::sum_of, 7);
    overlay_budget::lemma_category_numbers_distinct(cat, cat);
    assert(s.total == s.current[0] + s.current[1] + s.current[2] + s.current[3] + s.current[4]
        + s.current[5]);
}

/// Of the writers that wait on an open controller only the first is served: it
/// is admitted where there is room for it, refused where there can be none, and
/// waits on otherwise. Once it is served, it alone leaves the queue, and the
/// one behind it is woken.
pub proof fn lemma_first_waiter_is_served(
    s: AdmissionView,
    ticket: u64,
    cat: RetainedCategory,
    bytes: u64,
)
    requires
        overlay_budget::state_ok(s),
        !s.shutdown,
        !s.cancelled,
    ensures
        ({
            let (step, t) = overlay_budget::polled(s, ticket, cat, bytes);
            let first = s.waiters.len() > 0 && s.waiters[0].0 == ticket;
            &&& step is Wait ==> t == s
            &&& !first ==> step is Wait
            &&& first ==> match step {
                WaitStep::Wait => bytes <= s.config.hard_limit_bytes && s.total + bytes
                    > s.config.hard_limit_bytes,
                WaitStep::Done { outcome, wake } => {
                    &&& outcome is Admitted <==> s.total + bytes <= s.config.hard_limit_bytes
                    &&& outcome == (AdmissionOutcome::Rejected { reason: RejectReason::Oversized })
                        <==> bytes > s.config.hard_limit_bytes
                    &&& outcome is Admitted || outcome is Rejected
                    &&& outcome is Admitted ==> was_charged(s, t, cat, bytes)
                    &&& outcome is Rejected ==> same_amounts(s, t)
                    &&& t.waiters == s.waiters.skip(1)
                    &&& wake == (if s.waiters.len() > 1 {
                        Some(s.waiters[1].0)
                    } else {
                        None
                    })
                    &&& same_standing(s, t)
                    &&& t.next_ticket == s.next_ticket
                },
            }
        }),
{
    lemma_attempt_changes(s, cat, bytes);
    lemma_room_decides(s, cat, bytes);
}

/// A writer that waits on a closed controller is refused and leaves the queue,
/// which is counted; nothing else changes.
pub proof fn lemma_closed_refuses_waiters(
    s: AdmissionView,
    ticket: u64,
    cat: RetainedCategory,
    bytes: u64,
)
    requires
        overlay_budget::state_ok(s),
        s.shutdown || s.cancelled,
    ensures
        overlay_budget::polled(s, ticket, cat, bytes).0 == (WaitStep::Done {
            outcome: AdmissionOutcome::Rejected {
                reason: if s.shutdown {
                    RejectReason::Shutdown
                } else {
                    RejectReason::Cancelled
                },
            },
            wake: None,
        }),
        same_amounts(s, overlay_budget::polled(s, ticket, cat, bytes).1),
        same_standing(s, overlay_budget::polled(s, ticket, cat, bytes).1),
        counted(s.rejected, overlay_budget::polled(s, ticket, cat, bytes).1.rejected),
        left_queue(s, overlay_budget::polled(s, ticket, cat, bytes).1, ticket),
{
    lemma_leaving(s, ticket);
}

/// A writer left the queue: the first with its ticket, and no other.
pub open spec fn left_queue(s: AdmissionView, t: AdmissionView, ticket: u64) -> bool {
    &&& t.next_ticket == s.next_ticket
    &&& if exists|p: int| 0 <= p < s.waiters.len() && (#[trigger] s.waiters[p]).0 == ticket {
        exists|p: int|
            {
                &&& 0 <= p < s.waiters.len()
                &&& (#[trigger] s.waiters[p]).0 == ticket
                &&& t.waiters == s.waiters.remove(p)
                &&& forall|k: int| 0 <= k < p ==> (#[trigger] s.waiters[k]).0 != ticket
            }
    } else {
        t.waiters == s.waiters
    }
}

proof fn lemma_leaving(s: AdmissionView, ticket: u64)
    ensures
        left_queue(s, overlay_budget::unqueued(s, ticket), ticket),
{
    let p = overlay_budget::lemma_without(s.waiters, ticket);
    let w = s.waiters;
    if p >= 0 {
        assert(s.waiters[p].0 == ticket);
    } else {
        assert forall|k: int| 0 <= k < w.len() implies (#[trigger] s.waiters[k]).0 != ticket by {
            assert(w[k].0 != ticket);
        }
    }
}

/// A writer that enters the queue stands last, under a number that none before
/// it had; a writer that gives up leaves it, which is counted.
pub proof fn lemma_queue_changes(s: AdmissionView, bytes: u64, ticket: u64, timed_out: bool)
    requires
        overlay_budget::state_ok(s),
    ensures
        ({
            let t = overlay_budget::queued(s, bytes);
            &&& t.waiters.len() == s.waiters.len() + 1
            &&& t.waiters.take(s.waiters.len() as int) == s.waiters
            &&& t.waiters[s.waiters.len() as int] == (s.next_ticket, bytes)
            &&& counted(s.next_ticket, t.next_ticket)
            &&& t == (AdmissionView { waiters: t.waiters, next_ticket: t.next_ticket, ..s })
        }),
        ({
            let t = overlay_budget::abandoned(s, ticket, timed_out);
            &&& left_queue(s, t, ticket)
            &&& same_amounts(s, t)
            &&& same_standing(s, t)
            &&& counted(s.retryable, t.retryable)
            &&& timed_out ==> counted(s.timed_out, t.timed_out)
            &&& !timed_out ==> t.timed_out == s.timed_out
            &&& t.admitted == s.admitted
            &&& t.rejected == s.rejected
            &&& t.errors == s.errors
        }),
        overlay_budget::front(s.waiters) == (if s.waiters.len() > 0 {
            Some(s.waiters[0].0)
        } else {
            None
        }),
{
    assert(overlay_budget::queued(s, bytes).waiters.take(s.waiters.len() as int) =~= s.waiters);
    lemma_leaving(s, ticket);
}

/// A release takes off what is asked for, or all that the category holds where
/// that is less, which is counted as an error; category and total lose the same,
/// and a build stays asked for while the total is at the soft limit.
pub proof fn lemma_release_changes(s: AdmissionView, cat: RetainedCategory, bytes: u64)
    requires
        overlay_budget::state_ok(s),
    ensures
        ({
            let t = overlay_budget::released(s, cat, bytes);
            let held = s.current[cat.number()];
            &&& bytes <= held ==> t.current[cat.number()] == held - bytes && t.total == s.total
                - bytes && t.errors == s.errors
            &&& bytes > held ==> t.current[cat.number()] == 0 && t.total == s.total - held
                && counted(s.errors, t.errors)
            &&& same_beside(s, t, cat)
            &&& t.high == s.high
            &&& t.total_high == s.total_high
            &&& t.build_requested <==> t.total >= s.config.soft_limit_bytes
                && s.config.soft_limit_bytes > 0
            &&& same_standing(s, t)
            &&& same_queue(s, t)
            &&& t.admitted == s.admitted && t.retryable == s.retryable && t.rejected == s.rejected
                && t.timed_out == s.timed_out
        }),
{
    lemma_category_holds_within(s, cat);
    overlay_budget::lemma_category_numbers_distinct(cat, cat);
    let t = overlay_budget::released(s, cat, bytes);
    assert forall|c: RetainedCategory| c != cat implies #[trigger] t.current[c.number()]
        == s.current[c.number()] by {
        overlay_budget::lemma_category_numbers_distinct(c, cat);
    }
}

/// A transfer moves what is asked for, or all that the first category holds
/// where that is less, which is counted as an error: what one loses the other
/// gains, and all else stays. A transfer of a category to itself does nothing.
pub proof fn lemma_transfer_changes(
    s: AdmissionView,
    from: RetainedCategory,
    to: RetainedCategory,
    bytes: u64,
)
    requires
        overlay_budget::state_ok(s),
    ensures
        from == to ==> overlay_budget::transferred(s, from, to, bytes) == s,
        from != to ==> {
            let t = overlay_budget::transferred(s, from, to, bytes);
            let held = s.current[from.number()];
            let moved = s.current[from.number()] - t.current[from.number()];
            &&& bytes <= held ==> moved == bytes && t.errors == s.errors
            &&& bytes > held ==> moved == held && counted(s.errors, t.errors)
            &&& t.current[to.number()] == s.current[to.number()] + moved
            &&& moved > 0 ==> raised(
                s.high[to.number()],
                t.current[to.number()],
                t.high[to.number()],
            )
            &&& t.current.len() == s.current.len()
            &&& forall|c: RetainedCategory| c != from && c != to ==> #[trigger] t.current[c.number()]
                == s.current[c.number()]
            &&& forall|c: RetainedCategory| c != to ==> #[trigger] t.high[c.number()]
                == s.high[c.number()]
            &&& t == (AdmissionView { current: t.current, high: t.high, errors: t.errors, ..s })
        },
{
    let t = overlay_budget::transferred(s, from, to, bytes);
    overlay_budget::lemma_category_numbers_distinct(from, to);
    overlay_budget::lemma_category_numbers_distinct(to, from);
    reveal_with_fuel(overlay_budget::sum_of, 7);
    assert(s.total == s.current[0] + s.current[1] + s.current[2] + s.current[3] + s.current[4]
        + s.current[5]);
    if from != to {
        assert(s.current[from.number()] + s.current[to.number()] <= s.total);
        assert forall|c: RetainedCategory| c != from && c != to implies #[trigger] t.current[c.number()]
            == s.current[c.number()] by {
            overlay_budget::lemma_category_numbers_distinct(c, from);
            overlay_budget::lemma_category_numbers_distinct(c, to);
        }
        assert forall|c: RetainedCategory| c != to implies #[trigger] t.high[c.number()]
            == s.high[c.number()] by {
            overlay_budget::lemma_category_numbers_distinct(c, to);
        }
    }
}

/// Draining takes off everything that is retained and with it the build request;
/// the marks, the counts and the queue stay.
pub proof fn lemma_drain_changes(s: AdmissionView)
    requires
        overlay_budget::state_ok(s),
    ensures
        overlay_budget::drained(s).total == 0,
        overlay_budget::drained(s).current.len() == s.current.len(),
        forall|k: int| 0 <= k < s.current.len() ==> #[trigger] overlay_budget::drained(s).current[k] == 0,
        !overlay_budget::drained(s).build_requested,
        overlay_budget::drained(s) == (AdmissionView {
            current: overlay_budget::drained(s).current,
            total: overlay_budget::drained(s).total,
            build_requested: overlay_budget::drained(s).build_requested,
            ..s
        }),
{
}

/// Limits are in order exactly where the hard one is not zero and the soft one
/// not above it.
pub proof fn lemma_limits_in_order(c: OverlayBudgetConfig)
    ensures
        overlay_budget::config_fault(c) is None <==> c.hard_limit_bytes > 0 && c.soft_limit_bytes
            <= c.hard_limit_bytes,
        overlay_budget::config_fault(c) == Some(BudgetError::ZeroHardLimit) <==> c.hard_limit_bytes == 0,
        c.hard_limit_bytes > 0 && c.soft_limit_bytes > c.hard_limit_bytes ==> overlay_budget::config_fault(c)
            == Some(
            BudgetError::SoftAboveHard { soft: c.soft_limit_bytes, hard: c.hard_limit_bytes },
        ),
        forall|total: u64| presses(#[trigger] overlay_budget::pressure_of(total, c), total, c),
{
}

/// A new controller retains nothing, waits for nobody and admits.
pub proof fn lemma_fresh_is_empty(c: OverlayBudgetConfig)
    ensures
        overlay_budget::fresh_state(c).total == 0,
        forall|k: RetainedCategory| #[trigger] overlay_budget::fresh_state(c).current[k.number()] == 0,
        forall|k: RetainedCategory| #[trigger] overlay_budget::fresh_state(c).high[k.number()] == 0,
        overlay_budget::fresh_state(c).total_high == 0,
        overlay_budget::fresh_state(c).waiters.len() == 0,
        !overlay_budget::fresh_state(c).build_requested,
        !overlay_budget::fresh_state(c).shutdown,
        !overlay_budget::fresh_state(c).cancelled,
        overlay_budget::fresh_state(c).config == c,
        overlay_budget::fresh_state(c).admitted == 0,
        overlay_budget::fresh_state(c).retryable == 0,
        overlay_budget::fresh_state(c).rejected == 0,
        overlay_budget::fresh_state(c).timed_out == 0,
        overlay_budget::fresh_state(c).errors == 0,
{
    assert forall|k: RetainedCategory| #[trigger] overlay_budget::fresh_state(c).current[k.number()] == 0 by {
        overlay_budget::lemma_category_numbers_distinct(k, k);
    }
    assert forall|k: RetainedCategory| #[trigger] overlay_budget::fresh_state(c).high[k.number()] == 0 by {
        overlay_budget::lemma_category_numbers_distinct(k, k);
    }
}

} // verus!
