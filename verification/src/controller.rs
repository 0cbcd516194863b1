//! The admission controller of an overlay.

use crate::overlay_budget::{AdmissionOutcome, AdmissionView, BudgetError, CATEGORY_COUNT, CategoryAccounting, OverlayAccountingSnapshot, OverlayBudgetConfig, PressureLevel, RejectReason, RetainedCategory, RetryReason, WaitStep};
use crate::overlay_budget;
use vstd::prelude::*;

verus! {

/// Decides on the admission of changes to an overlay.
#[derive(Debug)]
pub struct OverlayAdmissionController {
    config: OverlayBudgetConfig,
    category_bytes: Vec<u64>,
    category_high_water: Vec<u64>,
    total_bytes: u64,
    total_high_water: u64,
    accounting_errors: u64,
    admitted_count: u64,
    retryable_count: u64,
    rejected_count: u64,
    timed_out_count: u64,
    build_requested: bool,
    shutdown: bool,
    cancelled: bool,
    next_ticket: u64,
    waiters: Vec<(u64, u64)>,
    active_epoch: u64,
}

impl View for OverlayAdmissionController {
    type V = AdmissionView;

    closed spec fn view(&self) -> AdmissionView {
        AdmissionView {
            config: self.config,
            current: self.category_bytes@,
            high: self.category_high_water@,
            total: self.total_bytes,
            total_high: self.total_high_water,
            errors: self.accounting_errors,
            admitted: self.admitted_count,
            retryable: self.retryable_count,
            rejected: self.rejected_count,
            timed_out: self.timed_out_count,
            build_requested: self.build_requested,
            shutdown: self.shutdown,
            cancelled: self.cancelled,
            next_ticket: self.next_ticket,
            waiters: self.waiters@,
            epoch: self.active_epoch,
        }
    }
}

fn add_capped(a: u64, b: u64) -> (r: u64)
    ensures
        r == overlay_budget::capped_sum(a, b),
{
    if a > u64::MAX - b {
        u64::MAX
    } else {
        a + b
    }
}

fn sub_floored(a: u64, b: u64) -> (r: u64)
    ensures
        r == overlay_budget::floored_difference(a, b),
{
    if b > a {
        0
    } else {
        a - b
    }
}

fn zeros() -> (r: Vec<u64>)
    ensures
        r@ == Seq::new(CATEGORY_COUNT as nat, |i: int| 0u64),
{
    let r: Vec<u64> = vec![0, 0, 0, 0, 0, 0];
    assert(r@ =~= Seq::new(CATEGORY_COUNT as nat, |i: int| 0u64));
    r
}

impl OverlayAdmissionController {
    /// What holds of every controller.
    pub open spec fn well_formed(&self) -> bool {
        overlay_budget::state_ok(self@)
    }

    /// A controller with the given limits, which retains nothing.
    pub fn new(config: OverlayBudgetConfig) -> (r: Result<Self, BudgetError>)
        ensures
            match r {
                Ok(c) => overlay_budget::config_fault(config) is None && c@ == overlay_budget::fresh_state(config)
                    && c.well_formed(),
                Err(e) => overlay_budget::config_fault(config) == Some(e),
            },
    {
        config.validate()?;
        let c = OverlayAdmissionController {
            config,
            category_bytes: zeros(),
            category_high_water: zeros(),
            total_bytes: 0,
            total_high_water: 0,
            accounting_errors: 0,
            admitted_count: 0,
            retryable_count: 0,
            rejected_count: 0,
            timed_out_count: 0,
            build_requested: false,
            shutdown: false,
            cancelled: false,
            next_ticket: 0,
            waiters: Vec::new(),
            active_epoch: 0,
        };
        proof {
            overlay_budget::lemma_fresh_state(config);
            assert(c.waiters@ =~= Seq::<(u64, u64)>::empty());
        }
        Ok(c)
    }

    /// The limits.
    pub fn config(&self) -> (r: &OverlayBudgetConfig)
        ensures
            *r == self@.config,
    {
        &self.config
    }

    /// The epoch of the overlay.
    pub fn active_epoch(&self) -> (r: u64)
        ensures
            r == self@.epoch,
    {
        self.active_epoch
    }

    /// Sets the epoch of the overlay.
    pub fn set_active_epoch(&mut self, epoch: u64)
        ensures
            final(self)@ == (AdmissionView { epoch, ..old(self)@ }),
            old(self).well_formed() ==> final(self).well_formed(),
    {
        self.active_epoch = epoch;
    }

    /// The pressure.
    pub fn pressure(&self) -> (r: PressureLevel)
        ensures
            r == overlay_budget::pressure_of(self@.total, self@.config),
            r is Hard <==> self@.total >= self@.config.hard_limit_bytes,
            r is Normal <==> self@.total < self@.config.soft_limit_bytes && self@.total
                < self@.config.hard_limit_bytes,
    {
        if self.total_bytes >= self.config.hard_limit_bytes {
            PressureLevel::Hard
        } else if self.total_bytes >= self.config.soft_limit_bytes {
            PressureLevel::Soft
        } else {
            PressureLevel::Normal
        }
    }

    fn charge(&mut self, cat: RetainedCategory, bytes: u64) -> (r: bool)
        requires
            old(self).well_formed(),
        ensures
            final(self)@ == overlay_budget::charged(old(self)@, cat, bytes),
            r == overlay_budget::crosses(old(self)@, bytes),
    {
        let i: usize = cat.index();
        let previous: u64 = self.total_bytes;
        let now: u64 = add_capped(self.category_bytes[i], bytes);
        self.category_bytes.set(i, now);
        self.total_bytes = add_capped(self.total_bytes, bytes);
        let high: u64 = self.category_high_water[i];
        self.category_high_water.set(
            i,
            if now > high {
                now
            } else {
                high
            },
        );
        if self.total_bytes > self.total_high_water {
            self.total_high_water = self.total_bytes;
        }
        let soft: u64 = self.config.soft_limit_bytes;
        let crossed: bool = previous < soft && self.total_bytes >= soft && !self.build_requested;
        if crossed {
            self.build_requested = true;
        }
        crossed
    }

    /// Admits a change where there is room for it.
    fn admit_if_ready(&mut self, cat: RetainedCategory, bytes: u64) -> (r: AdmissionOutcome)
        requires
            old(self).well_formed(),
        ensures
            (r, final(self)@) == overlay_budget::attempt(old(self)@, cat, bytes),
            final(self).well_formed(),
    {
        proof {
            overlay_budget::lemma_admission_keeps(self@, cat, bytes);
        }
        if self.shutdown {
            self.rejected_count = add_capped(self.rejected_count, 1);
            return AdmissionOutcome::Rejected { reason: RejectReason::Shutdown };
        }
        if self.cancelled {
            self.rejected_count = add_capped(self.rejected_count, 1);
            return AdmissionOutcome::Rejected { reason: RejectReason::Cancelled };
        }
        let hard: u64 = self.config.hard_limit_bytes;
        if bytes > hard {
            self.rejected_count = add_capped(self.rejected_count, 1);
            return AdmissionOutcome::Rejected { reason: RejectReason::Oversized };
        }
        if self.total_bytes > hard - bytes {
            return AdmissionOutcome::Retryable { reason: RetryReason::HardPressure };
        }
        let crossed: bool = self.charge(cat, bytes);
        self.admitted_count = add_capped(self.admitted_count, 1);
        AdmissionOutcome::Admitted { pressure: self.pressure(), requested_build: crossed }
    }

    /// Tries to admit a change of some bytes, without waiting.
    pub fn try_reserve(&mut self, cat: RetainedCategory, bytes: u64) -> (r: AdmissionOutcome)
        requires
            old(self).well_formed(),
        ensures
            (r, final(self)@) == overlay_budget::admission(old(self)@, cat, bytes),
            final(self).well_formed(),
            !old(self)@.shutdown && !old(self)@.cancelled ==> {
                &&& r is Admitted <==> old(self)@.total + bytes
                    <= old(self)@.config.hard_limit_bytes
                &&& r is Rejected <==> bytes > old(self)@.config.hard_limit_bytes
            },
            old(self)@.shutdown || old(self)@.cancelled ==> r is Rejected,
            final(self)@.total == old(self)@.total + if r is Admitted {
                bytes as int
            } else {
                0
            },
    {
        proof {
            overlay_budget::lemma_admission_keeps(self@, cat, bytes);
        }
        let outcome: AdmissionOutcome = self.admit_if_ready(cat, bytes);
        match outcome {
            AdmissionOutcome::Retryable { .. } => {
                self.retryable_count = add_capped(self.retryable_count, 1);
            },
            _ => {},
        }
        outcome
    }

    /// Tries to admit a change of some bytes, and registers its writer as the
    /// last of those that wait where there is no room. `Err` is what became of
    /// the change; `Ok` is the writer's ticket.
    pub fn register_waiter(&mut self, cat: RetainedCategory, bytes: u64) -> (r: Result<
        u64,
        AdmissionOutcome,
    >)
        requires
            old(self).well_formed(),
        ensures
            final(self).well_formed(),
            match r {
                Ok(ticket) => {
                    let (outcome, s) = overlay_budget::attempt(old(self)@, cat, bytes);
                    &&& outcome is Retryable
                    &&& ticket == s.next_ticket
                    &&& final(self)@ == overlay_budget::queued(s, bytes)
                },
                Err(outcome) => !(outcome is Retryable) && (outcome, final(self)@) == overlay_budget::attempt(
                    old(self)@,
                    cat,
                    bytes,
                ),
            },
    {
        let outcome: AdmissionOutcome = self.admit_if_ready(cat, bytes);
        match outcome {
            AdmissionOutcome::Retryable { .. } => {
                proof {
                    overlay_budget::lemma_queue_keeps(self@, bytes);
                }
                let ticket: u64 = self.next_ticket;
                self.next_ticket = add_capped(ticket, 1);
                self.waiters.push((ticket, bytes));
                Ok(ticket)
            },
            _ => Err(outcome),
        }
    }

    fn remove_waiter(&mut self, ticket: u64)
        requires
            old(self).well_formed(),
        ensures
            final(self)@ == overlay_budget::unqueued(old(self)@, ticket),
            final(self).well_formed(),
    {
        proof {
            overlay_budget::lemma_unqueue_keeps(self@, ticket);
        }
        let ghost p = overlay_budget::lemma_without(self@.waiters, ticket);
        let ghost w = self@.waiters;
        let mut i: usize = 0;
        while i < self.waiters.len()
            invariant
                i <= self.waiters@.len(),
                w == self.waiters@,
                self@ == old(self)@,
                forall|k: int| #![trigger w[k]] 0 <= k < i ==> w[k].0 != ticket,
                p < w.len(),
                p >= 0 ==> w[p].0 == ticket && overlay_budget::without(w, ticket) == w.remove(p),
                p < 0 ==> overlay_budget::without(w, ticket) == w,
                forall|k: int|
                    #![trigger w[k]]
                    0 <= k < (if p >= 0 {
                        p
                    } else {
                        w.len() as int
                    }) ==> w[k].0 != ticket,
                overlay_budget::state_ok(overlay_budget::unqueued(old(self)@, ticket)),
            decreases self.waiters@.len() - i,
        {
            if self.waiters[i].0 == ticket {
                assert(w[i as int].0 == ticket);
                assert(i == p);
                self.waiters.remove(i);
                assert(self@ == overlay_budget::unqueued(old(self)@, ticket));
                return;
            }
            i = i + 1;
        }
        proof {
            if p >= 0 {
                assert(w[p].0 != ticket);
            }
        }
    }

    /// The ticket of the writer that has waited longest.
    pub fn front_waiter(&self) -> (r: Option<u64>)
        ensures
            r == overlay_budget::front(self@.waiters),
            r is Some <==> self@.waiters.len() > 0,
            self@.waiters.len() > 0 ==> r == Some(self@.waiters[0].0),
    {
        if self.waiters.len() == 0 {
            None
        } else {
            Some(self.waiters[0].0)
        }
    }

    /// The tickets of all waiting writers, in arrival order.
    pub fn waiting(&self) -> (r: Vec<u64>)
        ensures
            r@ == overlay_budget::tickets(self@.waiters),
            r@.len() == self@.waiters.len(),
            forall|i: int| 0 <= i < r@.len() ==> #[trigger] r@[i] == self@.waiters[i].0,
    {
        let mut out: Vec<u64> = Vec::new();
        let mut i: usize = 0;
        while i < self.waiters.len()
            invariant
                i <= self.waiters@.len(),
                out@ == overlay_budget::tickets(self@.waiters).take(i as int),
            decreases self.waiters@.len() - i,
        {
            out.push(self.waiters[i].0);
            i = i + 1;
            assert(out@ =~= overlay_budget::tickets(self@.waiters).take(i as int));
        }
        assert(overlay_budget::tickets(self@.waiters).take(i as int) =~= overlay_budget::tickets(self@.waiters));
        out
    }

    /// What a woken writer does next: it is refused after a shutdown or a
    /// cancellation, admitted where it has waited longest and there is room,
    /// and waits on otherwise.
    pub fn poll_waiter(&mut self, ticket: u64, cat: RetainedCategory, bytes: u64) -> (r: WaitStep)
        requires
            old(self).well_formed(),
        ensures
            (r, final(self)@) == overlay_budget::polled(old(self)@, ticket, cat, bytes),
            final(self).well_formed(),
            !old(self)@.shutdown && !old(self)@.cancelled && old(self)@.waiters.len() > 0
                && old(self)@.waiters[0].0 == ticket ==> {
                &&& r is Done && r->outcome is Admitted <==> old(self)@.total + bytes
                    <= old(self)@.config.hard_limit_bytes
                &&& r is Done && r->outcome is Rejected <==> bytes
                    > old(self)@.config.hard_limit_bytes
            },
            !old(self)@.shutdown && !old(self)@.cancelled && !(old(self)@.waiters.len() > 0
                && old(self)@.waiters[0].0 == ticket) ==> r is Wait && final(self)@ == old(self)@,
    {
        proof {
            overlay_budget::lemma_poll_keeps(self@, ticket, cat, bytes);
        }
        if self.shutdown || self.cancelled {
            let reason: RejectReason = if self.shutdown {
                RejectReason::Shutdown
            } else {
                RejectReason::Cancelled
            };
            self.remove_waiter(ticket);
            self.rejected_count = add_capped(self.rejected_count, 1);
            return WaitStep::Done { outcome: AdmissionOutcome::Rejected { reason }, wake: None };
        }
        match self.front_waiter() {
            Some(t) => {
                if t != ticket {
                    return WaitStep::Wait;
                }
            },
            None => {
                return WaitStep::Wait;
            },
        }
        let outcome: AdmissionOutcome = self.admit_if_ready(cat, bytes);
        match outcome {
            AdmissionOutcome::Retryable { .. } => WaitStep::Wait,
            _ => {
                self.remove_waiter(ticket);
                WaitStep::Done { outcome, wake: self.front_waiter() }
            },
        }
    }

    /// A writer gives up waiting. Gives what became of its change and the
    /// writer to wake.
    pub fn abandon_wait(&mut self, ticket: u64, timed_out: bool) -> (r: (
        AdmissionOutcome,
        Option<u64>,
    ))
        requires
            old(self).well_formed(),
        ensures
            r.0 == (AdmissionOutcome::Retryable { reason: RetryReason::Timeout }),
            r.1 == overlay_budget::front(final(self)@.waiters),
            final(self)@ == overlay_budget::abandoned(old(self)@, ticket, timed_out),
            final(self).well_formed(),
    {
        self.remove_waiter(ticket);
        let ghost gone = self@;
        if timed_out {
            self.timed_out_count = add_capped(self.timed_out_count, 1);
        }
        self.retryable_count = add_capped(self.retryable_count, 1);
        assert(overlay_budget::tickets_ascend(gone) ==> overlay_budget::tickets_ascend(self@)) by {
            assert(self@.waiters == gone.waiters);
        }
        assert(self@.current == gone.current && self@.high == gone.high);
        (AdmissionOutcome::Retryable { reason: RetryReason::Timeout }, self.front_waiter())
    }

    /// Releases retained bytes, of those that the category holds. Gives the
    /// writer to wake.
    pub fn release(&mut self, cat: RetainedCategory, bytes: u64) -> (r: Option<u64>)
        requires
            old(self).well_formed(),
        ensures
            final(self)@ == overlay_budget::released(old(self)@, cat, bytes),
            r == overlay_budget::front(final(self)@.waiters),
            final(self).well_formed(),
    {
        proof {
            overlay_budget::lemma_release_keeps(self@, cat, bytes);
        }
        let i: usize = cat.index();
        let now: u64 = self.category_bytes[i];
        if bytes > now {
            self.accounting_errors = add_capped(self.accounting_errors, 1);
        }
        let held: u64 = if now < bytes {
            now
        } else {
            bytes
        };
        self.category_bytes.set(i, now - held);
        self.total_bytes = sub_floored(self.total_bytes, held);
        if self.total_bytes < self.config.soft_limit_bytes {
            self.build_requested = false;
        }
        self.front_waiter()
    }

    /// Moves retained bytes from one category to another. The total and the
    /// build request stay. Where the first category holds less, that much is
    /// moved and an accounting error is counted.
    pub fn transfer_retained(&mut self, from: RetainedCategory, to: RetainedCategory, bytes: u64)
        requires
            old(self).well_formed(),
        ensures
            final(self)@ == overlay_budget::transferred(old(self)@, from, to, bytes),
            final(self).well_formed(),
    {
        proof {
            overlay_budget::lemma_transfer_keeps(self@, from, to, bytes);
        }
        let f: usize = from.index();
        let t: usize = to.index();
        if f == t || bytes == 0 {
            return;
        }
        let held: u64 = self.category_bytes[f];
        let available: u64 = if held < bytes {
            held
        } else {
            bytes
        };
        if available < bytes {
            self.accounting_errors = add_capped(self.accounting_errors, 1);
        }
        let target: u64 = add_capped(self.category_bytes[t], available);
        self.category_bytes.set(f, held - available);
        self.category_bytes.set(t, target);
        if target > self.category_high_water[t] {
            self.category_high_water.set(t, target);
        }
        assert(self@.high =~= overlay_budget::transferred(old(self)@, from, to, bytes).high);
    }

    /// Releases everything that is retained. Gives the writer to wake.
    pub fn drain_all_retained(&mut self) -> (r: Option<u64>)
        requires
            old(self).well_formed(),
        ensures
            final(self)@ == overlay_budget::drained(old(self)@),
            r == overlay_budget::front(final(self)@.waiters),
            final(self).well_formed(),
    {
        proof {
            overlay_budget::lemma_drain_empties(self@);
        }
        let ghost before = self@;
        let cats: [RetainedCategory; 6] = RetainedCategory::all();
        let mut i: usize = 0;
        while i < 6
            invariant
                i <= 6,
                forall|k: int| 0 <= k < 6 ==> (#[trigger] cats@[k]).number() == k,
                self.well_formed(),
                before == old(self)@,
                forall|k: int| 0 <= k < i ==> #[trigger] self@.current[k] == 0,
                self@ == (AdmissionView {
                    current: self@.current,
                    total: self@.total,
                    build_requested: self@.build_requested,
                    ..before
                }),
            decreases 6 - i,
        {
            let cat: RetainedCategory = cats[i];
            assert(cats@[i as int].number() == i);
            let held: u64 = self.category_bytes[i];
            let ghost prior = self@;
            if held > 0 {
                self.release(cat, held);
                assert forall|k: int| 0 <= k < i + 1 implies #[trigger] self@.current[k] == 0 by {
                    if k < i {
                        assert(prior.current[k] == 0);
                    }
                }
            }
            i = i + 1;
        }
        proof {
            assert(self@.current =~= overlay_budget::drained(before).current);
            reveal_with_fuel(overlay_budget::sum_of, 7);
            assert(overlay_budget::sum_of(self@.current, CATEGORY_COUNT as int) == 0);
            assert(self@.total == 0);
        }
        self.front_waiter()
    }

    /// Notes that a build is done: another one may be asked for once the total
    /// is below the soft limit.
    pub fn complete_generation_build(&mut self)
        requires
            old(self).well_formed(),
        ensures
            final(self)@ == old(self)@,
            final(self).well_formed(),
    {
        if self.total_bytes < self.config.soft_limit_bytes {
            self.build_requested = false;
        }
    }

    /// Shuts down: nothing is admitted any more. Gives the writers to wake.
    pub fn request_shutdown(&mut self) -> (r: Vec<u64>)
        requires
            old(self).well_formed(),
        ensures
            final(self)@ == (AdmissionView { shutdown: true, ..old(self)@ }),
            r@ == overlay_budget::tickets(old(self)@.waiters),
            final(self).well_formed(),
    {
        self.shutdown = true;
        self.waiting()
    }

    /// Cancels: nothing is admitted any more. Gives the writers to wake.
    pub fn cancel(&mut self) -> (r: Vec<u64>)
        requires
            old(self).well_formed(),
        ensures
            final(self)@ == (AdmissionView { cancelled: true, ..old(self)@ }),
            r@ == overlay_budget::tickets(old(self)@.waiters),
            final(self).well_formed(),
    {
        self.cancelled = true;
        self.waiting()
    }

    /// A look at the controller.
    pub fn snapshot(&self) -> (r: OverlayAccountingSnapshot)
        requires
            self.well_formed(),
        ensures
            r.categories@.len() == CATEGORY_COUNT,
            forall|i: int|
                0 <= i < CATEGORY_COUNT ==> (#[trigger] r.categories@[i]) == (CategoryAccounting {
                    current_bytes: self@.current[i],
                    high_water_bytes: self@.high[i],
                }),
            r.total_bytes == self@.total,
            r.total_high_water_bytes == self@.total_high,
            r.soft_limit_bytes == self@.config.soft_limit_bytes,
            r.hard_limit_bytes == self@.config.hard_limit_bytes,
            r.pressure == overlay_budget::pressure_of(self@.total, self@.config),
            r.build_requested == self@.build_requested,
            r.active_epoch == self@.epoch,
            r.admitted_count == self@.admitted,
            r.retryable_count == self@.retryable,
            r.rejected_count == self@.rejected,
            r.timed_out_count == self@.timed_out,
            r.accounting_errors == self@.errors,
            r.blocked_writers == self@.waiters.len(),
    {
        let mut categories: Vec<CategoryAccounting> = Vec::new();
        let mut i: usize = 0;
        while i < CATEGORY_COUNT
            invariant
                i <= CATEGORY_COUNT,
                self.well_formed(),
                categories@.len() == i,
                forall|k: int|
                    0 <= k < i ==> (#[trigger] categories@[k]) == (CategoryAccounting {
                        current_bytes: self@.current[k],
                        high_water_bytes: self@.high[k],
                    }),
            decreases CATEGORY_COUNT - i,
        {
            categories.push(
                CategoryAccounting {
                    current_bytes: self.category_bytes[i],
                    high_water_bytes: self.category_high_water[i],
                },
            );
            i = i + 1;
        }
        OverlayAccountingSnapshot {
            categories,
            total_bytes: self.total_bytes,
            total_high_water_bytes: self.total_high_water,
            soft_limit_bytes: self.config.soft_limit_bytes,
            hard_limit_bytes: self.config.hard_limit_bytes,
            pressure: self.pressure(),
            build_requested: self.build_requested,
            active_epoch: self.active_epoch,
            admitted_count: self.admitted_count,
            retryable_count: self.retryable_count,
            rejected_count: self.rejected_count,
            timed_out_count: self.timed_out_count,
            accounting_errors: self.accounting_errors,
            blocked_writers: self.waiters.len(),
        }
    }
}

} // verus!
