//! Accounting of the memory that an overlay of recent changes retains, and the
//! admission of further changes.
//!
//! Retained bytes are charged by category; admission looks at their total.
//! Below the soft limit changes are admitted. The first change that reaches
//! the soft limit asks for one build, and the request stays until the total
//! falls below the soft limit again. A change that would pass the hard limit is
//! not admitted: it is retried, or its writer waits in arrival order.
//!
//! [`OverlayAdmissionController`] decides; it neither locks nor sleeps. A
//! driver holds it behind a lock, puts writers to sleep and wakes those whose
//! tickets it is handed.

use vstd::prelude::*;

verus! {

/// Default soft limit: 32 MiB.
pub const DEFAULT_SOFT_LIMIT_BYTES: u64 = 33_554_432;

/// Default hard limit: 64 MiB.
pub const DEFAULT_HARD_LIMIT_BYTES: u64 = 67_108_864;

/// Default time that a writer waits at the hard limit, in milliseconds.
pub const DEFAULT_MAX_BLOCK_MILLIS: u64 = 5_000;

/// What retained bytes are retained for.
#[derive(Debug, Clone, Copy, PartialEq, Eq, Hash, Structural)]
pub enum RetainedCategory {
    /// Nodes, edges and properties that were written.
    MutationPayload,
    /// Sets of changed identifiers.
    DirtySets,
    /// Sets of deleted identifiers.
    DeletionSets,
    /// State of the next epoch.
    NextEpoch,
    /// Queued changes.
    QueuedWork,
    /// Log buffers that are not flushed yet.
    WalBuffers,
}

/// Number of categories.
pub const CATEGORY_COUNT: usize = 6;

impl RetainedCategory {
    /// The number of a category.
    pub open spec fn number(self) -> int {
        match self {
            RetainedCategory::MutationPayload => 0,
            RetainedCategory::DirtySets => 1,
            RetainedCategory::DeletionSets => 2,
            RetainedCategory::NextEpoch => 3,
            RetainedCategory::QueuedWork => 4,
            RetainedCategory::WalBuffers => 5,
        }
    }

    /// All categories, by number.
    pub fn all() -> (r: [RetainedCategory; 6])
        ensures
            forall|i: int| 0 <= i < 6 ==> (#[trigger] r@[i]).number() == i,
    {
        [
            RetainedCategory::MutationPayload,
            RetainedCategory::DirtySets,
            RetainedCategory::DeletionSets,
            RetainedCategory::NextEpoch,
            RetainedCategory::QueuedWork,
            RetainedCategory::WalBuffers,
        ]
    }

    /// The number of the category.
    pub fn index(self) -> (r: usize)
        ensures
            r == self.number(),
            r < CATEGORY_COUNT,
    {
        match self {
            RetainedCategory::MutationPayload => 0,
            RetainedCategory::DirtySets => 1,
            RetainedCategory::DeletionSets => 2,
            RetainedCategory::NextEpoch => 3,
            RetainedCategory::QueuedWork => 4,
            RetainedCategory::WalBuffers => 5,
        }
    }
}

/// Numbers of categories are distinct.
pub proof fn lemma_category_numbers_distinct(a: RetainedCategory, b: RetainedCategory)
    ensures
        0 <= a.number() < CATEGORY_COUNT,
        a.number() == b.number() ==> a == b,
{
}

/// Limits of the overlay.
#[derive(Debug, Clone, Copy, PartialEq, Eq, Structural)]
pub struct OverlayBudgetConfig {
    /// Reaching this asks for a build.
    pub soft_limit_bytes: u64,
    /// No admitted change passes this.
    pub hard_limit_bytes: u64,
    /// How long a writer waits at the hard limit, in milliseconds.
    pub max_block_millis: u64,
}

/// What is wrong with limits.
#[derive(Debug, Clone, Copy, PartialEq, Eq, Structural)]
pub enum BudgetError {
    /// The hard limit is zero.
    ZeroHardLimit,
    /// The soft limit is above the hard limit.
    SoftAboveHard {
        /// Soft limit.
        soft: u64,
        /// Hard limit.
        hard: u64,
    },
}

/// The error, if any, of some limits.
pub open spec fn config_fault(c: OverlayBudgetConfig) -> Option<BudgetError> {
    if c.hard_limit_bytes == 0 {
        Some(BudgetError::ZeroHardLimit)
    } else if c.soft_limit_bytes > c.hard_limit_bytes {
        Some(BudgetError::SoftAboveHard { soft: c.soft_limit_bytes, hard: c.hard_limit_bytes })
    } else {
        None
    }
}

impl Default for OverlayBudgetConfig {
    fn default() -> (r: Self)
        ensures
            r.soft_limit_bytes == DEFAULT_SOFT_LIMIT_BYTES,
            r.hard_limit_bytes == DEFAULT_HARD_LIMIT_BYTES,
            r.max_block_millis == DEFAULT_MAX_BLOCK_MILLIS,
    {
        OverlayBudgetConfig {
            soft_limit_bytes: DEFAULT_SOFT_LIMIT_BYTES,
            hard_limit_bytes: DEFAULT_HARD_LIMIT_BYTES,
            max_block_millis: DEFAULT_MAX_BLOCK_MILLIS,
        }
    }
}

impl OverlayBudgetConfig {
    /// Small limits: 4 KiB and 8 KiB, a quarter of a second.
    pub fn for_tests() -> (r: Self)
        ensures
            r == (OverlayBudgetConfig {
                soft_limit_bytes: 4096,
                hard_limit_bytes: 8192,
                max_block_millis: 250,
            }),
    {
        OverlayBudgetConfig { soft_limit_bytes: 4096, hard_limit_bytes: 8192, max_block_millis: 250 }
    }

    /// Checks the limits: the hard one is not zero, the soft one not above it.
    pub fn validate(&self) -> (r: Result<(), BudgetError>)
        ensures
            match r {
                Ok(_) => config_fault(*self) is None,
                Err(e) => config_fault(*self) == Some(e),
            },
    {
        if self.hard_limit_bytes == 0 {
            return Err(BudgetError::ZeroHardLimit);
        }
        if self.soft_limit_bytes > self.hard_limit_bytes {
            return Err(
                BudgetError::SoftAboveHard {
                    soft: self.soft_limit_bytes,
                    hard: self.hard_limit_bytes,
                },
            );
        }
        Ok(())
    }
}

/// How much is retained, against the limits.
#[derive(Debug, Clone, Copy, PartialEq, Eq, Structural)]
pub enum PressureLevel {
    /// Below the soft limit.
    Normal,
    /// From the soft limit on, below the hard limit.
    Soft,
    /// From the hard limit on.
    Hard,
}

/// Why a change may be retried.
#[derive(Debug, Clone, Copy, PartialEq, Eq, Structural)]
pub enum RetryReason {
    /// There is no room now.
    HardPressure,
    /// The writer has waited long enough.
    Timeout,
}

/// Why a change is refused for good.
#[derive(Debug, Clone, Copy, PartialEq, Eq, Structural)]
pub enum RejectReason {
    /// It is larger than the hard limit.
    Oversized,
    /// The controller is shutting down.
    Shutdown,
    /// The controller was cancelled.
    Cancelled,
}

/// What became of an admission attempt.
#[derive(Debug, Clone, Copy, PartialEq, Eq, Structural)]
#[allow(inconsistent_fields)]
pub enum AdmissionOutcome {
    /// The change was admitted.
    Admitted {
        /// Pressure after it.
        pressure: PressureLevel,
        /// Whether this is the change that asks for a build.
        requested_build: bool,
    },
    /// The change was not admitted now.
    Retryable {
        /// Why.
        reason: RetryReason,
    },
    /// The change is refused for good.
    Rejected {
        /// Why.
        reason: RejectReason,
    },
}

/// Bytes of one category.
#[derive(Debug, Clone, Copy, PartialEq, Eq, Structural)]
pub struct CategoryAccounting {
    /// Retained now.
    pub current_bytes: u64,
    /// Most that was ever retained.
    pub high_water_bytes: u64,
}

/// A look at the controller.
#[derive(Debug)]
pub struct OverlayAccountingSnapshot {
    /// Bytes of each category, by number.
    pub categories: Vec<CategoryAccounting>,
    /// Retained bytes in all.
    pub total_bytes: u64,
    /// Most that was ever retained in all.
    pub total_high_water_bytes: u64,
    /// Soft limit.
    pub soft_limit_bytes: u64,
    /// Hard limit.
    pub hard_limit_bytes: u64,
    /// Pressure.
    pub pressure: PressureLevel,
    /// Whether a build is asked for.
    pub build_requested: bool,
    /// Epoch of the overlay.
    pub active_epoch: u64,
    /// Admitted changes.
    pub admitted_count: u64,
    /// Refusals that may be retried.
    pub retryable_count: u64,
    /// Refused changes.
    pub rejected_count: u64,
    /// Writers that waited too long.
    pub timed_out_count: u64,
    /// Releases of more than was retained.
    pub accounting_errors: u64,
    /// Waiting writers.
    pub blocked_writers: usize,
}

/// The state of a controller.
pub struct AdmissionView {
    /// Limits.
    pub config: OverlayBudgetConfig,
    /// Retained bytes by category.
    pub current: Seq<u64>,
    /// Most that was ever retained, by category.
    pub high: Seq<u64>,
    /// Retained bytes in all.
    pub total: u64,
    /// Most that was ever retained in all.
    pub total_high: u64,
    /// Releases of more than was retained.
    pub errors: u64,
    /// Admitted changes.
    pub admitted: u64,
    /// Refusals that may be retried.
    pub retryable: u64,
    /// Refused changes.
    pub rejected: u64,
    /// Writers that waited too long.
    pub timed_out: u64,
    /// Whether a build is asked for.
    pub build_requested: bool,
    /// Whether the controller is shutting down.
    pub shutdown: bool,
    /// Whether the controller was cancelled.
    pub cancelled: bool,
    /// Number of the next waiting writer.
    pub next_ticket: u64,
    /// Waiting writers in arrival order: ticket and bytes.
    pub waiters: Seq<(u64, u64)>,
    /// Epoch of the overlay.
    pub epoch: u64,
}

/// `a + b`, at most the greatest number.
pub open spec fn capped_sum(a: u64, b: u64) -> u64 {
    if a + b > u64::MAX {
        u64::MAX
    } else {
        (a + b) as u64
    }
}

/// `a - b`, at least zero.
pub open spec fn floored_difference(a: u64, b: u64) -> u64 {
    if b > a {
        0
    } else {
        (a - b) as u64
    }
}

/// The greater of two numbers.
pub open spec fn greater(a: u64, b: u64) -> u64 {
    if b > a {
        b
    } else {
        a
    }
}

/// The lesser of two numbers.
pub open spec fn lesser(a: u64, b: u64) -> u64 {
    if b < a {
        b
    } else {
        a
    }
}

/// The pressure of a total.
pub open spec fn pressure_of(total: u64, c: OverlayBudgetConfig) -> PressureLevel {
    if total >= c.hard_limit_bytes {
        PressureLevel::Hard
    } else if total >= c.soft_limit_bytes {
        PressureLevel::Soft
    } else {
        PressureLevel::Normal
    }
}

/// Whether charging `bytes` asks for a build.
pub open spec fn crosses(s: AdmissionView, bytes: u64) -> bool {
    &&& s.total < s.config.soft_limit_bytes
    &&& capped_sum(s.total, bytes) >= s.config.soft_limit_bytes
    &&& !s.build_requested
}

/// The state after charging `bytes` to a category.
pub open spec fn charged(s: AdmissionView, cat: RetainedCategory, bytes: u64) -> AdmissionView {
    let i = cat.number();
    let now = capped_sum(s.current[i], bytes);
    let total = capped_sum(s.total, bytes);
    AdmissionView {
        current: s.current.update(i, now),
        high: s.high.update(i, greater(s.high[i], now)),
        total,
        total_high: greater(s.total_high, total),
        build_requested: s.build_requested || crosses(s, bytes),
        ..s
    }
}

/// The state after releasing `bytes` of a category: no more than the category
/// holds is taken off, from it and from the total.
pub open spec fn released(s: AdmissionView, cat: RetainedCategory, bytes: u64) -> AdmissionView {
    let i = cat.number();
    let total = floored_difference(s.total, lesser(bytes, s.current[i]));
    AdmissionView {
        current: s.current.update(i, floored_difference(s.current[i], bytes)),
        total,
        errors: if bytes > s.current[i] {
            capped_sum(s.errors, 1)
        } else {
            s.errors
        },
        build_requested: s.build_requested && total >= s.config.soft_limit_bytes,
        ..s
    }
}

/// What becomes of a change now, and the state after it. That there is no room
/// is not counted: its writer may go on to wait.
pub open spec fn attempt(s: AdmissionView, cat: RetainedCategory, bytes: u64) -> (
    AdmissionOutcome,
    AdmissionView,
) {
    if s.shutdown {
        (
            AdmissionOutcome::Rejected { reason: RejectReason::Shutdown },
            AdmissionView { rejected: capped_sum(s.rejected, 1), ..s },
        )
    } else if s.cancelled {
        (
            AdmissionOutcome::Rejected { reason: RejectReason::Cancelled },
            AdmissionView { rejected: capped_sum(s.rejected, 1), ..s },
        )
    } else if bytes > s.config.hard_limit_bytes {
        (
            AdmissionOutcome::Rejected { reason: RejectReason::Oversized },
            AdmissionView { rejected: capped_sum(s.rejected, 1), ..s },
        )
    } else if s.total + bytes > s.config.hard_limit_bytes {
        (
            AdmissionOutcome::Retryable { reason: RetryReason::HardPressure },
            s,
        )
    } else {
        let t = charged(s, cat, bytes);
        (
            AdmissionOutcome::Admitted {
                pressure: pressure_of(t.total, s.config),
                requested_build: crosses(s, bytes),
            },
            AdmissionView { admitted: capped_sum(s.admitted, 1), ..t },
        )
    }
}

/// The outcome of an admission attempt whose writer does not wait, and the
/// state after it: a change that may be retried is counted.
pub open spec fn admission(s: AdmissionView, cat: RetainedCategory, bytes: u64) -> (
    AdmissionOutcome,
    AdmissionView,
) {
    let (outcome, t) = attempt(s, cat, bytes);
    (
        outcome,
        if outcome is Retryable {
            AdmissionView { retryable: capped_sum(t.retryable, 1), ..t }
        } else {
            t
        },
    )
}

/// The state after moving bytes from one category to another.
pub open spec fn transferred(
    s: AdmissionView,
    from: RetainedCategory,
    to: RetainedCategory,
    bytes: u64,
) -> AdmissionView {
    let f = from.number();
    let t = to.number();
    if f == t || bytes == 0 {
        s
    } else {
        let available = if s.current[f] < bytes {
            s.current[f]
        } else {
            bytes
        };
        let now = capped_sum(s.current[t], available);
        AdmissionView {
            current: s.current.update(f, (s.current[f] - available) as u64).update(t, now),
            high: s.high.update(t, greater(s.high[t], now)),
            errors: if available < bytes {
                capped_sum(s.errors, 1)
            } else {
                s.errors
            },
            ..s
        }
    }
}

/// The waiting writers without the first with a ticket.
pub open spec fn without(w: Seq<(u64, u64)>, ticket: u64) -> Seq<(u64, u64)>
    decreases w.len(),
{
    if w.len() == 0 {
        w
    } else if w[0].0 == ticket {
        w.skip(1)
    } else {
        seq![w[0]] + without(w.skip(1), ticket)
    }
}

/// The ticket of the writer that has waited longest.
pub open spec fn front(w: Seq<(u64, u64)>) -> Option<u64> {
    if w.len() == 0 {
        None
    } else {
        Some(w[0].0)
    }
}

/// The tickets of waiting writers.
pub open spec fn tickets(w: Seq<(u64, u64)>) -> Seq<u64> {
    Seq::new(w.len(), |i: int| w[i].0)
}

/// The bytes of all categories, out of the first `n`.
pub open spec fn sum_of(v: Seq<u64>, n: int) -> int
    decreases n,
{
    if n <= 0 {
        0
    } else {
        sum_of(v, n - 1) + v[n - 1]
    }
}

/// The tickets ascend and are all handed out, while tickets last.
pub open spec fn tickets_ascend(s: AdmissionView) -> bool {
    s.next_ticket < u64::MAX ==> {
        &&& forall|i: int| #![trigger s.waiters[i]] 0 <= i < s.waiters.len() ==> s.waiters[i].0 < s.next_ticket
        &&& forall|i: int, j: int|
            #![trigger s.waiters[i], s.waiters[j]]
            0 <= i < j < s.waiters.len() ==> s.waiters[i].0 < s.waiters[j].0
    }
}

/// What holds of every state of a controller: the limits are sound, the total
/// is the sum of the categories and never above the hard limit; the high waters
/// cover what is retained; a build is asked for exactly while the total
/// is at or above a soft limit that is not zero; writers wait in arrival order.
pub open spec fn state_ok(s: AdmissionView) -> bool {
    &&& config_fault(s.config) is None
    &&& s.current.len() == CATEGORY_COUNT
    &&& s.high.len() == CATEGORY_COUNT
    &&& s.total <= s.config.hard_limit_bytes
    &&& s.total == sum_of(s.current, CATEGORY_COUNT as int)
    &&& s.total <= s.total_high
    &&& forall|i: int| 0 <= i < CATEGORY_COUNT ==> #[trigger] s.current[i] <= s.high[i]
    &&& s.build_requested == (s.total >= s.config.soft_limit_bytes && s.config.soft_limit_bytes > 0)
    &&& tickets_ascend(s)
}

/// The state of a new controller.
pub open spec fn fresh_state(config: OverlayBudgetConfig) -> AdmissionView {
    AdmissionView {
        config,
        current: Seq::new(CATEGORY_COUNT as nat, |i: int| 0u64),
        high: Seq::new(CATEGORY_COUNT as nat, |i: int| 0u64),
        total: 0,
        total_high: 0,
        errors: 0,
        admitted: 0,
        retryable: 0,
        rejected: 0,
        timed_out: 0,
        build_requested: false,
        shutdown: false,
        cancelled: false,
        next_ticket: 0,
        waiters: Seq::empty(),
        epoch: 0,
    }
}

/// The state after registering a waiting writer.
pub open spec fn queued(s: AdmissionView, bytes: u64) -> AdmissionView {
    AdmissionView {
        next_ticket: capped_sum(s.next_ticket, 1),
        waiters: s.waiters.push((s.next_ticket, bytes)),
        ..s
    }
}

/// The state without a waiting writer.
pub open spec fn unqueued(s: AdmissionView, ticket: u64) -> AdmissionView {
    AdmissionView { waiters: without(s.waiters, ticket), ..s }
}

/// What a woken writer does next.
#[derive(Debug, Clone, Copy, PartialEq, Eq, Structural)]
pub enum WaitStep {
    /// It is done; the writer with the given ticket, if any, is woken.
    Done {
        /// What became of its change.
        outcome: AdmissionOutcome,
        /// The writer to wake.
        wake: Option<u64>,
    },
    /// It waits on.
    Wait,
}

/// What a woken writer does next, and the state after it. Only the writer that
/// has waited longest is admitted.
pub open spec fn polled(s: AdmissionView, ticket: u64, cat: RetainedCategory, bytes: u64) -> (
    WaitStep,
    AdmissionView,
) {
    if s.shutdown || s.cancelled {
        let gone = unqueued(s, ticket);
        (
            WaitStep::Done {
                outcome: AdmissionOutcome::Rejected {
                    reason: if s.shutdown {
                        RejectReason::Shutdown
                    } else {
                        RejectReason::Cancelled
                    },
                },
                wake: None,
            },
            AdmissionView { rejected: capped_sum(s.rejected, 1), ..gone },
        )
    } else if front(s.waiters) != Some(ticket) {
        (WaitStep::Wait, s)
    } else {
        let (outcome, t) = attempt(s, cat, bytes);
        if outcome is Retryable {
            (WaitStep::Wait, t)
        } else {
            let gone = unqueued(t, ticket);
            (WaitStep::Done { outcome, wake: front(gone.waiters) }, gone)
        }
    }
}

/// The state after giving up waiting: the change may be retried, which is
/// counted here and nowhere on the way.
pub open spec fn abandoned(s: AdmissionView, ticket: u64, timed_out: bool) -> AdmissionView {
    let gone = unqueued(s, ticket);
    AdmissionView {
        timed_out: if timed_out {
            capped_sum(s.timed_out, 1)
        } else {
            s.timed_out
        },
        retryable: capped_sum(s.retryable, 1),
        ..gone
    }
}

/// The state after everything retained has been released.
pub open spec fn drained(s: AdmissionView) -> AdmissionView {
    AdmissionView {
        current: Seq::new(CATEGORY_COUNT as nat, |i: int| 0u64),
        total: 0,
        build_requested: false,
        ..s
    }
}

proof fn lemma_sum_update(v: Seq<u64>, i: int, x: u64, n: int)
    requires
        0 <= i < v.len(),
        n <= v.len(),
    ensures
        sum_of(v.update(i, x), n) == sum_of(v, n) + if i < n {
            x - v[i]
        } else {
            0
        },
    decreases n,
{
    if n > 0 {
        lemma_sum_update(v, i, x, n - 1);
    }
}

proof fn lemma_sum_bound(v: Seq<u64>, i: int, n: int)
    requires
        0 <= n <= v.len(),
    ensures
        sum_of(v, n) >= 0,
        0 <= i < n ==> sum_of(v, n) >= v[i],
    decreases n,
{
    if n > 0 {
        lemma_sum_bound(v, i, n - 1);
    }
}

/// A new controller is in order.
pub proof fn lemma_fresh_state(config: OverlayBudgetConfig)
    requires
        config_fault(config) is None,
    ensures
        state_ok(fresh_state(config)),
{
    let s = fresh_state(config);
    reveal_with_fuel(sum_of, 7);
    assert(sum_of(s.current, CATEGORY_COUNT as int) == 0);
}

/// An admission attempt keeps the state in order. So no admitted change takes
/// the total above the hard limit.
pub proof fn lemma_admission_keeps(s: AdmissionView, cat: RetainedCategory, bytes: u64)
    requires
        state_ok(s),
    ensures
        state_ok(attempt(s, cat, bytes).1),
        state_ok(admission(s, cat, bytes).1),
        admission(s, cat, bytes).1.total <= s.config.hard_limit_bytes,
{
    let t = charged(s, cat, bytes);
    let n = CATEGORY_COUNT as int;
    let i = cat.number();
    lemma_sum_update(s.current, i, capped_sum(s.current[i], bytes), n);
    lemma_sum_bound(s.current, i, n);
    lemma_sum_bound(t.current, i, n);
    assert forall|k: int| 0 <= k < n implies #[trigger] t.current[k] <= t.high[k] by {
        assert(s.current[k] <= s.high[k]);
    }
}

/// A release keeps the state in order.
pub proof fn lemma_release_keeps(s: AdmissionView, cat: RetainedCategory, bytes: u64)
    requires
        state_ok(s),
    ensures
        state_ok(released(s, cat, bytes)),
{
    let t = released(s, cat, bytes);
    let n = CATEGORY_COUNT as int;
    let i = cat.number();
    lemma_sum_update(s.current, i, floored_difference(s.current[i], bytes), n);
    lemma_sum_bound(s.current, i, n);
    lemma_sum_bound(t.current, i, n);
    assert forall|k: int| 0 <= k < n implies #[trigger] t.current[k] <= t.high[k] by {
        assert(s.current[k] <= s.high[k]);
    }
}

proof fn lemma_two_bound(v: Seq<u64>, i: int, j: int, n: int)
    requires
        0 <= i < n,
        0 <= j < n,
        i != j,
        n <= v.len(),
    ensures
        v[i] + v[j] <= sum_of(v, n),
    decreases n,
{
    if i == n - 1 {
        lemma_sum_bound(v, j, n - 1);
    } else if j == n - 1 {
        lemma_sum_bound(v, i, n - 1);
    } else {
        lemma_two_bound(v, i, j, n - 1);
    }
}

/// A transfer leaves the total, the pressure and the build request as they
/// were, and what the categories retain together; it keeps the state in order.
pub proof fn lemma_transfer_keeps(
    s: AdmissionView,
    from: RetainedCategory,
    to: RetainedCategory,
    bytes: u64,
)
    requires
        state_ok(s),
    ensures
        state_ok(transferred(s, from, to, bytes)),
        transferred(s, from, to, bytes).total == s.total,
        transferred(s, from, to, bytes).build_requested == s.build_requested,
        sum_of(transferred(s, from, to, bytes).current, CATEGORY_COUNT as int) == sum_of(
            s.current,
            CATEGORY_COUNT as int,
        ),
{
    let t = transferred(s, from, to, bytes);
    let n = CATEGORY_COUNT as int;
    let f = from.number();
    let g = to.number();
    if f != g && bytes != 0 {
        let available = if s.current[f] < bytes {
            s.current[f]
        } else {
            bytes
        };
        let less = (s.current[f] - available) as u64;
        let mid = s.current.update(f, less);
        lemma_sum_update(s.current, f, less, n);
        lemma_sum_bound(mid, g, n);
        lemma_two_bound(s.current, f, g, n);
        lemma_sum_update(mid, g, capped_sum(s.current[g], available), n);
        assert forall|k: int| 0 <= k < n implies #[trigger] t.current[k] <= t.high[k] by {
            assert(s.current[k] <= s.high[k]);
        }
    }
}

/// A change asks for a build exactly when it takes the total from below the
/// soft limit to it or beyond, so exactly once until the total has been below
/// the soft limit again.
pub proof fn lemma_one_build_request(s: AdmissionView, cat: RetainedCategory, bytes: u64)
    requires
        state_ok(s),
    ensures
        admission(s, cat, bytes).0 matches AdmissionOutcome::Admitted { requested_build, .. }
            ==> requested_build == (s.total < s.config.soft_limit_bytes <= s.total + bytes),
        s.build_requested ==> !(admission(s, cat, bytes).0 matches AdmissionOutcome::Admitted {
            requested_build: true,
            ..
        }),
        s.build_requested ==> admission(s, cat, bytes).1.build_requested,
{
}

/// Releasing what was admitted gives back the total, the categories and the
/// build request of before.
pub proof fn lemma_release_undoes_admission(s: AdmissionView, cat: RetainedCategory, bytes: u64)
    requires
        state_ok(s),
        admission(s, cat, bytes).0 is Admitted,
    ensures
        released(admission(s, cat, bytes).1, cat, bytes).total == s.total,
        released(admission(s, cat, bytes).1, cat, bytes).current == s.current,
        released(admission(s, cat, bytes).1, cat, bytes).errors == s.errors,
        released(admission(s, cat, bytes).1, cat, bytes).build_requested == s.build_requested,
{
    let n = CATEGORY_COUNT as int;
    lemma_sum_bound(s.current, cat.number(), n);
    assert(released(admission(s, cat, bytes).1, cat, bytes).current =~= s.current);
}

/// Draining leaves nothing retained, no build request and normal pressure
/// where the soft limit is not zero; it keeps the state in order.
pub proof fn lemma_drain_empties(s: AdmissionView)
    requires
        state_ok(s),
    ensures
        state_ok(drained(s)),
        drained(s).total == 0,
        forall|c: RetainedCategory| #[trigger] drained(s).current[c.number()] == 0,
        s.config.soft_limit_bytes > 0 ==> pressure_of(drained(s).total, s.config)
            == PressureLevel::Normal,
{
    let t = drained(s);
    reveal_with_fuel(sum_of, 7);
    assert(sum_of(t.current, CATEGORY_COUNT as int) == 0);
}

/// Taking a writer out of the queue takes out the first with its ticket and
/// nobody else.
pub proof fn lemma_without(w: Seq<(u64, u64)>, ticket: u64) -> (p: int)
    ensures
        p < w.len(),
        p >= 0 ==> w[p].0 == ticket && without(w, ticket) == w.remove(p),
        p < 0 ==> without(w, ticket) == w,
        forall|i: int| #![trigger w[i]] 0 <= i < (if p >= 0 { p } else { w.len() as int }) ==> w[i].0 != ticket,
    decreases w.len(),
{
    if w.len() == 0 {
        -1
    } else if w[0].0 == ticket {
        assert(w.skip(1) =~= w.remove(0));
        0
    } else {
        let q = lemma_without(w.skip(1), ticket);
        assert forall|i: int| #![trigger w[i]] 0 <= i < (if q >= 0 { q + 1 } else { w.len() as int }) implies w[i].0
            != ticket by {
            if i > 0 {
                assert(w.skip(1)[i - 1] == w[i]);
            }
        }
        if q >= 0 {
            assert(w.skip(1)[q] == w[q + 1]);
            assert(without(w, ticket) =~= w.remove(q + 1));
            q + 1
        } else {
            assert(without(w, ticket) =~= w);
            -1
        }
    }
}

/// Leaving the queue keeps the state in order.
pub proof fn lemma_unqueue_keeps(s: AdmissionView, ticket: u64)
    requires
        state_ok(s),
    ensures
        state_ok(unqueued(s, ticket)),
{
    let p = lemma_without(s.waiters, ticket);
    let t = unqueued(s, ticket);
    if p >= 0 && s.next_ticket < u64::MAX {
        assert forall|i: int| #![trigger t.waiters[i]] 0 <= i < t.waiters.len() implies t.waiters[i].0
            < t.next_ticket by {
            assert(t.waiters[i] == s.waiters[if i < p { i } else { i + 1 }]);
        }
        assert forall|i: int, j: int|
            #![trigger t.waiters[i], t.waiters[j]]
            0 <= i < j < t.waiters.len() implies t.waiters[i].0 < t.waiters[j].0 by {
            assert(t.waiters[i] == s.waiters[if i < p { i } else { i + 1 }]);
            assert(t.waiters[j] == s.waiters[if j < p { j } else { j + 1 }]);
        }
    }
}

/// Entering the queue keeps the state in order.
pub proof fn lemma_queue_keeps(s: AdmissionView, bytes: u64)
    requires
        state_ok(s),
    ensures
        state_ok(queued(s, bytes)),
{
}

/// Writers are admitted in arrival order: a waiting writer that is admitted or
/// refused for its size had waited longest.
pub proof fn lemma_first_come_first_served(
    s: AdmissionView,
    ticket: u64,
    cat: RetainedCategory,
    bytes: u64,
)
    requires
        state_ok(s),
        !s.shutdown,
        !s.cancelled,
        s.next_ticket < u64::MAX,
        polled(s, ticket, cat, bytes).0 is Done,
    ensures
        s.waiters.len() > 0,
        forall|i: int| #![trigger s.waiters[i]] 0 <= i < s.waiters.len() ==> ticket <= s.waiters[i].0,
        polled(s, ticket, cat, bytes).1.waiters == s.waiters.skip(1),
{
    assert(s.waiters[0].0 == ticket);
}

/// A woken writer's step keeps the state in order.
pub proof fn lemma_poll_keeps(s: AdmissionView, ticket: u64, cat: RetainedCategory, bytes: u64)
    requires
        state_ok(s),
    ensures
        state_ok(polled(s, ticket, cat, bytes).1),
{
    lemma_admission_keeps(s, cat, bytes);
    lemma_unqueue_keeps(s, ticket);
    lemma_unqueue_keeps(attempt(s, cat, bytes).1, ticket);
}

/// After a shutdown or a cancellation nothing is admitted any more.
pub proof fn lemma_closed_admits_nothing(s: AdmissionView, cat: RetainedCategory, bytes: u64)
    requires
        s.shutdown || s.cancelled,
    ensures
        admission(s, cat, bytes).0 is Rejected,
        admission(s, cat, bytes).1.total == s.total,
        admission(s, cat, bytes).1.current == s.current,
{
}

/// A change that finds no room is counted as retryable once, when its writer
/// gets that answer: at once where it does not wait, and when it gives up where
/// it does. Entering the queue and every look while it waits count nothing.
pub proof fn lemma_retry_is_counted_once(
    s: AdmissionView,
    ticket: u64,
    cat: RetainedCategory,
    bytes: u64,
    timed_out: bool,
)
    requires
        s.retryable < u64::MAX,
    ensures
        admission(s, cat, bytes).1.retryable == s.retryable + if admission(
            s,
            cat,
            bytes,
        ).0 is Retryable {
            1int
        } else {
            0
        },
        queued(attempt(s, cat, bytes).1, bytes).retryable == s.retryable,
        polled(s, ticket, cat, bytes).1.retryable == s.retryable,
        abandoned(s, ticket, timed_out).retryable == s.retryable + 1,
{
}

/// A release of more than a category holds takes off what it holds, leaves the
/// other categories alone and is counted as an error; the total stays the sum.
pub proof fn lemma_drift_is_counted(s: AdmissionView, cat: RetainedCategory, bytes: u64)
    requires
        state_ok(s),
        bytes > s.current[cat.number()],
        s.errors < u64::MAX,
    ensures
        released(s, cat, bytes).errors == s.errors + 1,
        released(s, cat, bytes).total == s.total - s.current[cat.number()],
        released(s, cat, bytes).total == sum_of(
            released(s, cat, bytes).current,
            CATEGORY_COUNT as int,
        ),
        forall|k: int|
            0 <= k < CATEGORY_COUNT && k != cat.number() ==> #[trigger] released(
                s,
                cat,
                bytes,
            ).current[k] == s.current[k],
{
    lemma_release_keeps(s, cat, bytes);
    lemma_sum_bound(s.current, cat.number(), CATEGORY_COUNT as int);
}

} // verus!
