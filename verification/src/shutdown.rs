//! Graceful shutdown: hooks registered per phase, run phase by phase in a
//! fixed order, each phase under its own time budget and all of them under
//! an optional global one.
//!
//! Budgets are soft: a running hook is never interrupted. Both budgets are
//! checked before each hook starts, and the global one also at each phase
//! boundary; once a budget is spent, the remaining hooks of the phase are
//! skipped and the phase is reported as timed out.

use std::time::{Duration, Instant};
use vstd::prelude::*;

use crate::clock::{
    budget_spent, checked_deadline, duration_from_secs, elapsed_since, now, reached,
    secs_duration,
};
use crate::error::TraitKitError;

verus! {

/// Shutdown phases, executed in declaration order.
#[derive(Debug, Clone, Copy, PartialEq, Eq, Hash, Structural)]
pub enum ShutdownPhase {
    /// Stop accepting new requests.
    StopRequests,
    /// Drain queued work.
    DrainQueue,
    /// Close connection pools and other underlying resources.
    CloseConnections,
}

/// The phase run in position `i` (0, 1 or 2).
pub open spec fn phase_at(i: int) -> ShutdownPhase {
    if i == 0 {
        ShutdownPhase::StopRequests
    } else if i == 1 {
        ShutdownPhase::DrainQueue
    } else {
        ShutdownPhase::CloseConnections
    }
}

impl ShutdownPhase {
    /// Readable name of the phase.
    pub open spec fn name(self) -> Seq<char> {
        match self {
            ShutdownPhase::StopRequests => "stop_requests"@,
            ShutdownPhase::DrainQueue => "drain_queue"@,
            ShutdownPhase::CloseConnections => "close_connections"@,
        }
    }

    /// Position of the phase in the execution order.
    pub open spec fn ord(self) -> int {
        match self {
            ShutdownPhase::StopRequests => 0,
            ShutdownPhase::DrainQueue => 1,
            ShutdownPhase::CloseConnections => 2,
        }
    }

    /// All phases, in execution order.
    pub fn all_phases() -> (r: &'static [ShutdownPhase])
        ensures
            r@ == seq![
                ShutdownPhase::StopRequests,
                ShutdownPhase::DrainQueue,
                ShutdownPhase::CloseConnections,
            ],
    {
        &[ShutdownPhase::StopRequests, ShutdownPhase::DrainQueue, ShutdownPhase::CloseConnections]
    }

    /// Readable name of the phase.
    pub fn as_str(&self) -> (r: &'static str)
        ensures
            r@ == self.name(),
    {
        match self {
            ShutdownPhase::StopRequests => "stop_requests",
            ShutdownPhase::DrainQueue => "drain_queue",
            ShutdownPhase::CloseConnections => "close_connections",
        }
    }

    /// Position of the phase in the execution order (0, 1 or 2).
    pub fn index(self) -> (r: usize)
        ensures
            r == self.ord(),
            phase_at(r as int) == self,
    {
        match self {
            ShutdownPhase::StopRequests => 0,
            ShutdownPhase::DrainQueue => 1,
            ShutdownPhase::CloseConnections => 2,
        }
    }
}

/// A registered shutdown hook: a `FnOnce()` boxed behind `dyn FnOnce`.
///
/// Opaque to verification: hooks are stored, moved and eventually run.
#[verifier::external_body]
pub struct ShutdownHook {
    inner: Box<dyn FnOnce()>,
}

impl ShutdownHook {
    /// Box a closure as a hook.
    ///
    /// Trusted: nothing is stated of the result beyond its existence.
    #[verifier::external_body]
    pub(crate) fn new<F: FnOnce() + 'static>(hook: F) -> ShutdownHook {
        ShutdownHook { inner: Box::new(hook) }
    }

    /// Call the boxed closure, consuming the hook.
    ///
    /// Trusted: the closure's own effects are outside verification.
    #[verifier::external_body]
    pub(crate) fn run(self) {
        (self.inner)()
    }
}

/// Outcome of the check made before starting a hook.
pub enum TimeoutDecision {
    /// Budget left: run the hook.
    RunHook,
    /// The phase budget or the global deadline is spent: skip the rest.
    SkipRemaining,
}

/// The decision for given budget checks: skip when either budget is spent.
pub fn decide_timeout(phase_budget_spent: bool, deadline_passed: bool) -> (r: TimeoutDecision)
    ensures
        r is SkipRemaining <==> (phase_budget_spent || deadline_passed),
{
    if phase_budget_spent || deadline_passed {
        TimeoutDecision::SkipRemaining
    } else {
        TimeoutDecision::RunHook
    }
}

/// Whether the global deadline, if any, has been reached; never without one.
pub fn deadline_passed(deadline: &Option<Instant>) -> (r: bool)
    ensures
        deadline is None ==> !r,
{
    match deadline {
        Some(d) => reached(d),
        None => false,
    }
}

/// Soft budget check before a hook: skip when the phase has run for
/// `timeout` since `start`, or the global `deadline` (if any) has passed.
/// Both checks read the clock; a zero phase budget is spent whenever it is
/// checked, so such a phase skips its hooks.
pub fn evaluate_timeout(start: &Instant, timeout: &Duration, deadline: &Option<Instant>) -> (r:
    TimeoutDecision)
    ensures
        *timeout == secs_duration(0) ==> r is SkipRemaining,
{
    let spent = budget_spent(start, timeout);
    let passed = deadline_passed(deadline);
    decide_timeout(spent, passed)
}

/// What a phase boundary does, given the global deadline reading taken
/// there.
pub enum PhaseStep {
    /// Deadline not passed: execute the phase.
    Execute,
    /// Deadline passed: skip the whole phase, keeping its hooks registered,
    /// and report it as timed out with zero elapsed time.
    SkipPhase,
}

/// The boundary decision for a reading of the global deadline: skip the
/// phase exactly when the deadline has passed.
pub fn decide_phase(deadline_passed: bool) -> (r: PhaseStep)
    ensures
        r is SkipPhase <==> deadline_passed,
{
    if deadline_passed {
        PhaseStep::SkipPhase
    } else {
        PhaseStep::Execute
    }
}

/// The result reported for a phase skipped at its boundary: timed out,
/// zero elapsed time.
pub fn skipped_phase_result(phase: ShutdownPhase) -> (r: ShutdownPhaseResult)
    ensures
        r.phase == phase,
        r.timed_out,
        r.elapsed == secs_duration(0),
{
    ShutdownPhaseResult { phase, timed_out: true, elapsed: duration_from_secs(0) }
}

/// The hooks of one phase and its time budget.
struct PhaseConfig {
    hooks: Vec<ShutdownHook>,
    timeout: Duration,
}

impl PhaseConfig {
    /// A phase with no hooks and the given budget.
    fn new(timeout: Duration) -> (r: Self)
        ensures
            r.hooks@ == Seq::<ShutdownHook>::empty(),
            r.timeout == timeout,
    {
        PhaseConfig { hooks: Vec::new(), timeout }
    }
}

/// Result of one phase.
#[derive(Debug, Clone, PartialEq, Eq)]
pub struct ShutdownPhaseResult {
    /// The phase.
    pub phase: ShutdownPhase,
    /// Whether hooks were skipped because a budget was spent.
    pub timed_out: bool,
    /// Time the phase took.
    pub elapsed: Duration,
}

impl Default for ShutdownPhaseResult {
    /// The first phase, not timed out, zero time.
    fn default() -> (r: Self)
        ensures
            r.phase == ShutdownPhase::StopRequests,
            !r.timed_out,
            r.elapsed == secs_duration(0),
    {
        ShutdownPhaseResult {
            phase: ShutdownPhase::StopRequests,
            timed_out: false,
            elapsed: duration_from_secs(0),
        }
    }
}

impl ShutdownPhaseResult {
    /// The phase completed without skipping hooks.
    pub fn is_ok(&self) -> (r: bool)
        ensures
            r == !self.timed_out,
    {
        !self.timed_out
    }
}

/// The phases of `s` that timed out, in order.
pub open spec fn timed_out_seq(s: Seq<ShutdownPhaseResult>) -> Seq<ShutdownPhase>
    decreases s.len(),
{
    if s.len() == 0 {
        Seq::empty()
    } else if s.last().timed_out {
        timed_out_seq(s.drop_last()).push(s.last().phase)
    } else {
        timed_out_seq(s.drop_last())
    }
}

/// Every phase in `s` completed.
pub open spec fn all_completed(s: Seq<ShutdownPhaseResult>) -> bool {
    forall|i: int| 0 <= i < s.len() ==> !(#[trigger] s[i]).timed_out
}

proof fn lemma_timed_out_seq_empty(s: Seq<ShutdownPhaseResult>)
    ensures
        all_completed(s) <==> timed_out_seq(s).len() == 0,
    decreases s.len(),
{
    if s.len() > 0 {
        lemma_timed_out_seq_empty(s.drop_last());
        if all_completed(s.drop_last()) && !s.last().timed_out {
            assert forall|i: int| 0 <= i < s.len() implies !(#[trigger] s[i]).timed_out by {
                if i < s.len() - 1 {
                    assert(s.drop_last()[i] == s[i]);
                }
            }
        }
        if all_completed(s) {
            assert(!s[s.len() - 1].timed_out);
            assert forall|i: int| 0 <= i < s.len() - 1 implies !(#[trigger] s.drop_last()[i]).timed_out by {
                assert(s.drop_last()[i] == s[i]);
            }
        }
    }
}

/// Overall result of a shutdown: one entry per phase, in execution order.
#[derive(Debug, Clone, PartialEq, Eq, Default)]
pub struct ShutdownResult {
    /// Per-phase results.
    pub phases: Vec<ShutdownPhaseResult>,
}

impl ShutdownResult {
    /// No phase timed out.
    pub fn is_ok(&self) -> (r: bool)
        ensures
            r == all_completed(self.phases@),
    {
        let mut i: usize = 0;
        while i < self.phases.len()
            invariant
                i <= self.phases@.len(),
                forall|j: int| 0 <= j < i ==> !(#[trigger] self.phases@[j]).timed_out,
            decreases self.phases@.len() - i,
        {
            if self.phases[i].timed_out {
                return false;
            }
            i += 1;
        }
        true
    }

    /// The phases that timed out, in order.
    pub fn timed_out_phases(&self) -> (r: Vec<ShutdownPhase>)
        ensures
            r@ == timed_out_seq(self.phases@),
    {
        let mut out: Vec<ShutdownPhase> = Vec::new();
        let mut i: usize = 0;
        while i < self.phases.len()
            invariant
                i <= self.phases@.len(),
                out@ == timed_out_seq(self.phases@.take(i as int)),
            decreases self.phases@.len() - i,
        {
            proof {
                assert(self.phases@.take(i + 1).drop_last() =~= self.phases@.take(i as int));
            }
            if self.phases[i].timed_out {
                out.push(self.phases[i].phase);
            }
            i += 1;
        }
        proof {
            assert(self.phases@.take(i as int) =~= self.phases@);
        }
        out
    }

    /// `Ok(self)` when no phase timed out, otherwise
    /// `Err(ShutdownTimedOut)` listing the phases that did.
    pub fn into_result(self) -> (r: Result<Self, TraitKitError>)
        ensures
            all_completed(self.phases@) ==> r == Ok::<Self, TraitKitError>(self),
            !all_completed(self.phases@) ==> (r matches Err(TraitKitError::ShutdownTimedOut {
                phases,
            }) && phases@ == timed_out_seq(self.phases@)),
    {
        if self.is_ok() {
            Ok(self)
        } else {
            Err(TraitKitError::ShutdownTimedOut { phases: self.timed_out_phases() })
        }
    }
}

impl std::ops::Deref for ShutdownResult {
    type Target = [ShutdownPhaseResult];

    /// The per-phase results as a slice.
    fn deref(&self) -> (r: &[ShutdownPhaseResult])
        ensures
            r@ == self.phases@,
    {
        self.phases.as_slice()
    }
}

/// Hooks of `lists[p]`, first `ks[p]` of each, for the first `m` phases in
/// order: the hooks that a shutdown runs.
pub open spec fn run_prefixes(
    lists: Seq<Seq<ShutdownHook>>,
    ks: Seq<nat>,
    m: nat,
) -> Seq<ShutdownHook>
    decreases m,
{
    if m == 0 {
        Seq::empty()
    } else {
        run_prefixes(lists, ks, (m - 1) as nat) + lists[m - 1].take(ks[m - 1] as int)
    }
}

/// How many hooks a phase execution ran, from the budget readings it took
/// before its hooks (`true`: a budget was spent): every reading but a final
/// "spent" one let a hook run.
pub open spec fn hooks_run(readings: Seq<bool>) -> int {
    if readings.len() > 0 && readings.last() {
        readings.len() - 1
    } else {
        readings.len() as int
    }
}

/// Whether a phase execution over `n` hooks took `readings`: one reading
/// before each hook it tried, every reading but the last one "not spent",
/// and it stopped early only on a "spent" reading.
pub open spec fn phase_readings(readings: Seq<bool>, n: nat) -> bool {
    &&& readings.len() <= n
    &&& forall|i: int| 0 <= i < readings.len() - 1 ==> !#[trigger] readings[i]
    &&& readings.len() < n ==> (readings.len() > 0 && readings.last())
}

/// Whether a phase execution stopped on a spent budget.
pub open spec fn stopped_early(readings: Seq<bool>) -> bool {
    readings.len() > 0 && readings.last()
}

/// What a shutdown of `before` leaves (`after`) and returns (`r`): three
/// results in phase order; for each phase either a skip at the phase
/// boundary (only with a global budget: nothing run, hooks kept, timed out,
/// zero time) or an execution that ran the first `ks[p]` hooks, drained
/// the phase, and timed out exactly when it stopped early. The hooks run,
/// in order, extend the log of executed hooks.
pub open spec fn shutdown_outcome(
    before: ShutdownCoordinator,
    after: ShutdownCoordinator,
    r: ShutdownResult,
) -> bool {
    &&& after.wf()
    &&& after.timeouts() == before.timeouts()
    &&& after.global_budget() == before.global_budget()
    &&& r.phases@.len() == 3
    &&& after.boundary_readings().len() == 3
    &&& forall|p: int| 0 <= p < 3 ==> (#[trigger] r.phases@[p]).phase == phase_at(p)
    &&& exists|ks: Seq<nat>| phase_counts(before, after, r, ks)
}

/// The per-phase part of [`shutdown_outcome`]: `ks[p]` hooks of phase `p`
/// ran; a phase whose boundary reading found the global deadline passed
/// was skipped whole, and any other phase ran exactly the hooks its budget
/// readings allowed and was drained.
pub open spec fn phase_counts(
    before: ShutdownCoordinator,
    after: ShutdownCoordinator,
    r: ShutdownResult,
    ks: Seq<nat>,
) -> bool {
    &&& ks.len() == 3
    &&& after.executed() == before.executed() + run_prefixes(before.hook_lists(), ks, 3)
    &&& forall|p: int|
        0 <= p < 3 ==> {
            &&& #[trigger] ks[p] <= before.hook_lists()[p].len()
            &&& after.boundary_readings()[p] ==> {
                &&& before.global_budget() is Some
                &&& ks[p] == 0
                &&& r.phases@[p].timed_out
                &&& r.phases@[p].elapsed == secs_duration(0)
                &&& after.hook_lists()[p] == before.hook_lists()[p]
            }
            &&& !after.boundary_readings()[p] ==> {
                &&& phase_readings(after.hook_readings()[p], before.hook_lists()[p].len())
                &&& ks[p] == hooks_run(after.hook_readings()[p])
                &&& r.phases@[p].timed_out == stopped_early(after.hook_readings()[p])
                &&& (r.phases@[p].timed_out <==> ks[p] < before.hook_lists()[p].len())
                &&& (before.timeouts()[p] == secs_duration(0) ==> forall|i: int|
                    0 <= i < after.hook_readings()[p].len() ==> #[trigger] after.hook_readings()[p][i])
                &&& after.hook_lists()[p] == Seq::<ShutdownHook>::empty()
            }
        }
}

/// Synchronous graceful-shutdown coordinator.
///
/// Hooks are registered per phase and run once: a shutdown drains the hooks
/// of every phase it executes. Each phase has a time budget (30 seconds by
/// default); an optional global budget covers the whole shutdown.
pub struct ShutdownCoordinator {
    phases: Vec<PhaseConfig>,
    global_timeout: Option<Duration>,
    executed: Ghost<Seq<ShutdownHook>>,
    boundary_log: Ghost<Seq<bool>>,
    hook_log: Ghost<Seq<Seq<bool>>>,
}

impl ShutdownCoordinator {
    /// Exactly three phases, each with its hooks, budget and readings.
    pub open spec fn wf(self) -> bool {
        &&& self.hook_lists().len() == 3
        &&& self.timeouts().len() == 3
        &&& self.hook_readings().len() == 3
    }

    /// The global deadline readings taken at the phase boundaries of the
    /// latest shutdown (`true`: passed), by phase position.
    pub closed spec fn boundary_readings(self) -> Seq<bool> {
        self.boundary_log@
    }

    /// For each phase, the budget readings taken before its hooks the last
    /// time it was executed (`true`: a budget was spent).
    pub closed spec fn hook_readings(self) -> Seq<Seq<bool>> {
        self.hook_log@
    }

    /// Hooks waiting in each phase, by phase position.
    pub closed spec fn hook_lists(self) -> Seq<Seq<ShutdownHook>> {
        Seq::new(self.phases@.len(), |p: int| self.phases@[p].hooks@)
    }

    /// Budget of each phase, by phase position.
    pub closed spec fn timeouts(self) -> Seq<Duration> {
        Seq::new(self.phases@.len(), |p: int| self.phases@[p].timeout)
    }

    /// The global budget, if set.
    pub closed spec fn global_budget(self) -> Option<Duration> {
        self.global_timeout
    }

    /// Every hook run so far, in the order they ran.
    pub closed spec fn executed(self) -> Seq<ShutdownHook> {
        self.executed@
    }

    /// A coordinator with no hooks, a 30 second budget per phase and no
    /// global budget.
    pub fn new() -> (r: Self)
        ensures
            r.wf(),
            r.hook_lists() == seq![
                Seq::<ShutdownHook>::empty(),
                Seq::<ShutdownHook>::empty(),
                Seq::<ShutdownHook>::empty(),
            ],
            r.timeouts() == seq![secs_duration(30), secs_duration(30), secs_duration(30)],
            r.global_budget() is None,
            r.executed() == Seq::<ShutdownHook>::empty(),
    {
        let mut phases: Vec<PhaseConfig> = Vec::new();
        phases.push(PhaseConfig::new(duration_from_secs(30)));
        phases.push(PhaseConfig::new(duration_from_secs(30)));
        phases.push(PhaseConfig::new(duration_from_secs(30)));
        let r = ShutdownCoordinator {
            phases,
            global_timeout: None,
            executed: Ghost(Seq::empty()),
            boundary_log: Ghost(Seq::empty()),
            hook_log: Ghost(Seq::new(3, |p: int| Seq::<bool>::empty())),
        };
        proof {
            assert(r.hook_lists() =~= seq![
                Seq::<ShutdownHook>::empty(),
                Seq::<ShutdownHook>::empty(),
                Seq::<ShutdownHook>::empty(),
            ]);
            assert(r.timeouts() =~= seq![secs_duration(30), secs_duration(30), secs_duration(30)]);
        }
        r
    }

    /// Set the budget of the whole shutdown.
    pub fn set_global_timeout(&mut self, timeout: Duration)
        requires
            old(self).wf(),
        ensures
            final(self).wf(),
            final(self).global_budget() == Some(timeout),
            final(self).hook_lists() == old(self).hook_lists(),
            final(self).timeouts() == old(self).timeouts(),
            final(self).executed() == old(self).executed(),
    {
        self.global_timeout = Some(timeout);
    }

    /// Set the budget of one phase.
    pub fn set_phase_timeout(&mut self, phase: ShutdownPhase, timeout: Duration)
        requires
            old(self).wf(),
        ensures
            final(self).wf(),
            final(self).timeouts() == old(self).timeouts().update(phase.ord(), timeout),
            final(self).hook_lists() == old(self).hook_lists(),
            final(self).global_budget() == old(self).global_budget(),
            final(self).executed() == old(self).executed(),
    {
        let idx = phase.index();
        let hooks_before = Ghost(self.hook_lists());
        self.phases[idx].timeout = timeout;
        proof {
            assert(self.timeouts() =~= old(self).timeouts().update(phase.ord(), timeout));
            assert(self.hook_lists() =~= hooks_before@);
        }
    }

    /// Register a hook in a phase. Hooks of one phase run in registration
    /// order.
    pub fn register_hook<F: FnOnce() + 'static>(&mut self, phase: ShutdownPhase, hook: F)
        requires
            old(self).wf(),
        ensures
            final(self).wf(),
            exists|h: ShutdownHook|
                final(self).hook_lists() == old(self).hook_lists().update(
                    phase.ord(),
                    old(self).hook_lists()[phase.ord()].push(h),
                ),
            final(self).timeouts() == old(self).timeouts(),
            final(self).global_budget() == old(self).global_budget(),
            final(self).executed() == old(self).executed(),
    {
        let idx = phase.index();
        let boxed = ShutdownHook::new(hook);
        let ghost h = boxed;
        self.phases[idx].hooks.push(boxed);
        proof {
            assert(self.hook_lists() =~= old(self).hook_lists().update(
                phase.ord(),
                old(self).hook_lists()[phase.ord()].push(h),
            ));
            assert(self.timeouts() =~= old(self).timeouts());
        }
    }

    /// Run every hook of `phase`, in order, checking both budgets before
    /// each one; on a spent budget the remaining hooks are skipped and the
    /// phase is reported as timed out. The phase's hooks are drained either
    /// way. The budget readings taken are recorded as the phase's
    /// [`Self::hook_readings`].
    pub fn execute_phase(&mut self, phase: ShutdownPhase, deadline: Option<Instant>) -> (r:
        ShutdownPhaseResult)
        requires
            old(self).wf(),
        ensures
            final(self).wf(),
            r.phase == phase,
            final(self).hook_lists() == old(self).hook_lists().update(
                phase.ord(),
                Seq::<ShutdownHook>::empty(),
            ),
            final(self).timeouts() == old(self).timeouts(),
            final(self).global_budget() == old(self).global_budget(),
            final(self).boundary_readings() == old(self).boundary_readings(),
            final(self).hook_readings() == old(self).hook_readings().update(
                phase.ord(),
                final(self).hook_readings()[phase.ord()],
            ),
            phase_readings(
                final(self).hook_readings()[phase.ord()],
                old(self).hook_lists()[phase.ord()].len(),
            ),
            r.timed_out == stopped_early(final(self).hook_readings()[phase.ord()]),
            final(self).executed() == old(self).executed() + old(self).hook_lists()[phase.ord()].take(
                hooks_run(final(self).hook_readings()[phase.ord()]),
            ),
            old(self).timeouts()[phase.ord()] == secs_duration(0) ==> forall|i: int|
                0 <= i < final(self).hook_readings()[phase.ord()].len()
                    ==> #[trigger] final(self).hook_readings()[phase.ord()][i],
    {
        let idx = phase.index();
        let start = now();
        let mut hooks: Vec<ShutdownHook> = Vec::new();
        std::mem::swap(&mut hooks, &mut self.phases[idx].hooks);
        let timeout = self.phases[idx].timeout;
        let ghost all = hooks@;
        let ghost log0 = self.executed@;
        let ghost mut rd: Seq<bool> = Seq::empty();
        proof {
            self.hook_log@ = self.hook_log@.update(phase.ord(), rd);
            assert(self.hook_lists() =~= old(self).hook_lists().update(
                phase.ord(),
                Seq::<ShutdownHook>::empty(),
            ));
            assert(self.timeouts() =~= old(self).timeouts());
            assert(all == old(self).hook_lists()[phase.ord()]);
            assert(timeout == old(self).timeouts()[phase.ord()]);
        }
        while hooks.len() > 0
            invariant
                self.wf(),
                self.hook_lists() == old(self).hook_lists().update(
                    phase.ord(),
                    Seq::<ShutdownHook>::empty(),
                ),
                self.timeouts() == old(self).timeouts(),
                self.global_timeout == old(self).global_timeout,
                self.boundary_log == old(self).boundary_log,
                self.hook_log@ == old(self).hook_readings().update(phase.ord(), rd),
                rd.len() <= all.len(),
                forall|i: int| 0 <= i < rd.len() ==> !#[trigger] rd[i],
                all == old(self).hook_lists()[phase.ord()],
                timeout == old(self).timeouts()[phase.ord()],
                timeout == secs_duration(0) ==> rd.len() == 0,
                old(self).wf(),
                0 <= phase.ord() < 3,
                log0 == old(self).executed(),
                phase.ord() == idx,
                hooks@ == all.skip(rd.len() as int),
                self.executed@ == log0 + all.take(rd.len() as int),
            decreases hooks@.len(),
        {
            let decision = evaluate_timeout(&start, &timeout, &deadline);
            match decision {
                TimeoutDecision::SkipRemaining => {
                    proof {
                        let k = rd.len();
                        rd = rd.push(true);
                        self.hook_log@ = old(self).hook_readings().update(phase.ord(), rd);
                        assert(self.hook_readings()[phase.ord()] == rd);
                        assert(hooks_run(rd) == k);
                        assert(self.hook_readings() =~= old(self).hook_readings().update(
                            phase.ord(),
                            self.hook_readings()[phase.ord()],
                        ));
                    }
                    return ShutdownPhaseResult {
                        phase,
                        timed_out: true,
                        elapsed: elapsed_since(&start),
                    };
                },
                TimeoutDecision::RunHook => {},
            }
            let hook = hooks.remove(0);
            proof {
                let k = rd.len();
                assert(hook == all[k as int]);
                assert(all.take((k + 1) as int) =~= all.take(k as int).push(hook));
                self.executed@ = self.executed@.push(hook);
                rd = rd.push(false);
                self.hook_log@ = old(self).hook_readings().update(phase.ord(), rd);
                assert(hooks@ =~= all.skip(rd.len() as int));
            }
            hook.run();
        }
        proof {
            assert(rd.len() == all.len());
            assert(self.hook_readings()[phase.ord()] == rd);
            assert(hooks_run(rd) == rd.len());
            assert(self.hook_readings() =~= old(self).hook_readings().update(
                phase.ord(),
                self.hook_readings()[phase.ord()],
            ));
        }
        ShutdownPhaseResult { phase, timed_out: false, elapsed: elapsed_since(&start) }
    }

    /// Run the whole shutdown: the phases in order `StopRequests`,
    /// `DrainQueue`, `CloseConnections`. At each phase boundary the global
    /// deadline is read; [`decide_phase`] skips the phase whole when it has
    /// passed (its hooks stay registered; reported timed out with zero
    /// elapsed time), and otherwise the phase runs through
    /// [`Self::execute_phase`]. The boundary readings are recorded as
    /// [`Self::boundary_readings`].
    pub fn shutdown(&mut self) -> (r: ShutdownResult)
        requires
            old(self).wf(),
        ensures
            shutdown_outcome(*old(self), *final(self), r),
    {
        let global_start = now();
        let deadline: Option<Instant> = match &self.global_timeout {
            Some(t) => checked_deadline(&global_start, t),
            None => None,
        };
        let ghost lists0 = self.hook_lists();
        let ghost log0 = self.executed@;
        let ghost timeouts0 = self.timeouts();
        let ghost mut ks: Seq<nat> = Seq::empty();
        proof {
            self.boundary_log@ = Seq::empty();
        }
        let all = ShutdownPhase::all_phases();
        let mut results: Vec<ShutdownPhaseResult> = Vec::new();
        let mut p: usize = 0;
        while p < 3
            invariant
                self.wf(),
                all@ == seq![
                    ShutdownPhase::StopRequests,
                    ShutdownPhase::DrainQueue,
                    ShutdownPhase::CloseConnections,
                ],
                lists0 == old(self).hook_lists(),
                log0 == old(self).executed(),
                timeouts0 == old(self).timeouts(),
                self.timeouts() == old(self).timeouts(),
                self.global_timeout == old(self).global_timeout,
                old(self).global_timeout is None ==> deadline is None,
                p <= 3,
                results@.len() == p,
                ks.len() == p,
                self.boundary_log@.len() == p,
                self.executed@ == log0 + run_prefixes(lists0, ks, p as nat),
                forall|q: int| p <= q < 3 ==> #[trigger] self.hook_lists()[q] == lists0[q],
                forall|q: int|
                    0 <= q < p ==> {
                        &&& (#[trigger] results@[q]).phase == phase_at(q)
                        &&& ks[q] <= lists0[q].len()
                        &&& self.boundary_log@[q] ==> {
                            &&& old(self).global_timeout is Some
                            &&& ks[q] == 0
                            &&& results@[q].timed_out
                            &&& results@[q].elapsed == secs_duration(0)
                            &&& self.hook_lists()[q] == lists0[q]
                        }
                        &&& !self.boundary_log@[q] ==> {
                            &&& phase_readings(self.hook_log@[q], lists0[q].len())
                            &&& ks[q] == hooks_run(self.hook_log@[q])
                            &&& results@[q].timed_out == stopped_early(self.hook_log@[q])
                            &&& (results@[q].timed_out <==> ks[q] < lists0[q].len())
                            &&& (timeouts0[q] == secs_duration(0) ==> forall|i: int|
                                0 <= i < self.hook_log@[q].len() ==> #[trigger] self.hook_log@[q][i])
                            &&& self.hook_lists()[q] == Seq::<ShutdownHook>::empty()
                        }
                    },
            decreases 3 - p,
        {
            let phase = all[p];
            assert(phase == phase_at(p as int));
            let ghost lists_before = self.hook_lists();
            let ghost log_before = self.executed@;
            let ghost readings_before = self.hook_log@;
            let ghost boundary_before = self.boundary_log@;
            let passed = deadline_passed(&deadline);
            match decide_phase(passed) {
                PhaseStep::SkipPhase => {
                    results.push(skipped_phase_result(phase));
                    proof {
                        assert(run_prefixes(lists0, ks.push(0), (p + 1) as nat) =~= run_prefixes(lists0, ks, p as nat)) by {
                            assert(run_prefixes(lists0, ks.push(0), p as nat) =~= run_prefixes(lists0, ks, p as nat)) by {
                                lemma_run_prefixes_extend(lists0, ks, 0, p as nat);
                            }
                            assert(lists0[p as int].take(0) =~= Seq::<ShutdownHook>::empty());
                        }
                        ks = ks.push(0);
                        self.boundary_log@ = self.boundary_log@.push(passed);
                    }
                },
                PhaseStep::Execute => {
                    let res = self.execute_phase(phase, deadline);
                    results.push(res);
                    proof {
                        let k = hooks_run(self.hook_log@[p as int]) as nat;
                        lemma_run_prefixes_extend(lists0, ks, k, p as nat);
                        assert(lists_before[p as int] == lists0[p as int]);
                        assert(self.executed@ =~= log0 + run_prefixes(lists0, ks.push(k), (p + 1) as nat));
                        ks = ks.push(k);
                        self.boundary_log@ = self.boundary_log@.push(passed);
                    }
                },
            }
            p += 1;
            proof {
                assert forall|q: int| 0 <= q < p implies {
                    &&& (#[trigger] results@[q]).phase == phase_at(q)
                    &&& ks[q] <= lists0[q].len()
                    &&& self.boundary_log@[q] ==> {
                        &&& old(self).global_timeout is Some
                        &&& ks[q] == 0
                        &&& results@[q].timed_out
                        &&& results@[q].elapsed == secs_duration(0)
                        &&& self.hook_lists()[q] == lists0[q]
                    }
                    &&& !self.boundary_log@[q] ==> {
                        &&& phase_readings(self.hook_log@[q], lists0[q].len())
                        &&& ks[q] == hooks_run(self.hook_log@[q])
                        &&& results@[q].timed_out == stopped_early(self.hook_log@[q])
                        &&& (results@[q].timed_out <==> ks[q] < lists0[q].len())
                        &&& (timeouts0[q] == secs_duration(0) ==> forall|i: int|
                            0 <= i < self.hook_log@[q].len() ==> #[trigger] self.hook_log@[q][i])
                        &&& self.hook_lists()[q] == Seq::<ShutdownHook>::empty()
                    }
                } by {
                    if q < p - 1 {
                        assert(self.hook_lists()[q] == lists_before[q]);
                        assert(self.hook_log@[q] == readings_before[q]);
                        assert(self.boundary_log@[q] == boundary_before[q]);
                    }
                }
            }
        }
        let r = ShutdownResult { phases: results };
        proof {
            assert(self.boundary_readings() == self.boundary_log@);
            assert(self.hook_readings() == self.hook_log@);
            assert(phase_counts(*old(self), *self, r, ks));
        }
        r
    }
}

proof fn lemma_run_prefixes_extend(lists: Seq<Seq<ShutdownHook>>, ks: Seq<nat>, k: nat, m: nat)
    requires
        m == ks.len(),
    ensures
        run_prefixes(lists, ks.push(k), m) == run_prefixes(lists, ks, m),
        run_prefixes(lists, ks.push(k), m + 1) == run_prefixes(lists, ks, m) + lists[m as int].take(
            k as int,
        ),
{
    lemma_run_prefixes_prefix(lists, ks, ks.push(k), m);
}

proof fn lemma_run_prefixes_prefix(lists: Seq<Seq<ShutdownHook>>, a: Seq<nat>, b: Seq<nat>, m: nat)
    requires
        m <= a.len(),
        m <= b.len(),
        forall|i: int| 0 <= i < m ==> a[i] == b[i],
    ensures
        run_prefixes(lists, a, m) == run_prefixes(lists, b, m),
    decreases m,
{
    if m > 0 {
        lemma_run_prefixes_prefix(lists, a, b, (m - 1) as nat);
    }
}

/// Without a global budget, a phase that has no hooks always completes, and
/// every phase is drained by the shutdown.
pub proof fn lemma_unbudgeted_empty_phases_complete(
    before: ShutdownCoordinator,
    after: ShutdownCoordinator,
    r: ShutdownResult,
    p: int,
)
    requires
        shutdown_outcome(before, after, r),
        before.global_budget() is None,
        0 <= p < 3,
    ensures
        after.hook_lists()[p] == Seq::<ShutdownHook>::empty(),
        before.hook_lists()[p].len() == 0 ==> !r.phases@[p].timed_out,
{
    let ks = choose|ks: Seq<nat>| phase_counts(before, after, r, ks);
    assert(ks[p] <= before.hook_lists()[p].len());
}

/// When no phase times out and there is no global budget, the shutdown
/// runs every registered hook exactly once: all hooks of `StopRequests` in
/// registration order, then those of `DrainQueue`, then those of
/// `CloseConnections`.
pub proof fn lemma_completed_shutdown_runs_all_in_order(
    before: ShutdownCoordinator,
    after: ShutdownCoordinator,
    r: ShutdownResult,
)
    requires
        shutdown_outcome(before, after, r),
        before.global_budget() is None,
        all_completed(r.phases@),
    ensures
        after.executed() == before.executed() + before.hook_lists()[0] + before.hook_lists()[1]
            + before.hook_lists()[2],
{
    let ks = choose|ks: Seq<nat>| phase_counts(before, after, r, ks);
    let l = before.hook_lists();
    assert forall|q: int| 0 <= q < 3 implies #[trigger] ks[q] == l[q].len() by {
        assert(!r.phases@[q].timed_out);
    }
    assert(l[0].take(ks[0] as int) =~= l[0]);
    assert(l[1].take(ks[1] as int) =~= l[1]);
    assert(l[2].take(ks[2] as int) =~= l[2]);
    assert(run_prefixes(l, ks, 3) =~= l[0] + l[1] + l[2]) by {
        reveal_with_fuel(run_prefixes, 4);
    }
    assert(before.executed() + (l[0] + l[1] + l[2]) =~= before.executed() + l[0] + l[1] + l[2]);
}

/// Hooks run at most once: after a shutdown without a global budget, a
/// second shutdown runs no hook and reports every phase as completed.
pub proof fn lemma_second_shutdown_runs_nothing(
    first: ShutdownCoordinator,
    mid: ShutdownCoordinator,
    r1: ShutdownResult,
    last: ShutdownCoordinator,
    r2: ShutdownResult,
)
    requires
        shutdown_outcome(first, mid, r1),
        shutdown_outcome(mid, last, r2),
        first.global_budget() is None,
    ensures
        last.executed() == mid.executed(),
        all_completed(r2.phases@),
{
    lemma_unbudgeted_empty_phases_complete(first, mid, r1, 0);
    lemma_unbudgeted_empty_phases_complete(first, mid, r1, 1);
    lemma_unbudgeted_empty_phases_complete(first, mid, r1, 2);
    lemma_unbudgeted_empty_phases_complete(mid, last, r2, 0);
    lemma_unbudgeted_empty_phases_complete(mid, last, r2, 1);
    lemma_unbudgeted_empty_phases_complete(mid, last, r2, 2);
    assert forall|i: int| 0 <= i < r2.phases@.len() implies !(#[trigger] r2.phases@[i]).timed_out by {}
    let ks = choose|ks: Seq<nat>| phase_counts(mid, last, r2, ks);
    let l = mid.hook_lists();
    assert(ks[0] <= l[0].len() && ks[1] <= l[1].len() && ks[2] <= l[2].len());
    assert(l[0].take(ks[0] as int) =~= Seq::<ShutdownHook>::empty());
    assert(l[1].take(ks[1] as int) =~= Seq::<ShutdownHook>::empty());
    assert(l[2].take(ks[2] as int) =~= Seq::<ShutdownHook>::empty());
    assert(run_prefixes(l, ks, 3) =~= Seq::<ShutdownHook>::empty()) by {
        reveal_with_fuel(run_prefixes, 4);
    }
    assert(last.executed() =~= mid.executed());
}

/// A phase whose budget is zero runs none of its hooks: if it has any, it
/// is reported as timed out, whether or not the global deadline had passed
/// at its boundary.
pub proof fn lemma_zero_budget_phase_times_out(
    before: ShutdownCoordinator,
    after: ShutdownCoordinator,
    r: ShutdownResult,
    p: int,
)
    requires
        shutdown_outcome(before, after, r),
        before.wf(),
        0 <= p < 3,
        before.timeouts()[p] == secs_duration(0),
        before.hook_lists()[p].len() > 0,
    ensures
        r.phases@[p].timed_out,
{
    let ks = choose|ks: Seq<nat>| phase_counts(before, after, r, ks);
    assert(ks[p] <= before.hook_lists()[p].len());
    if !after.boundary_readings()[p] {
        let rd = after.hook_readings()[p];
        if rd.len() > 0 {
            assert(rd[rd.len() - 1]);
        }
    }
}

impl Default for ShutdownCoordinator {
    fn default() -> (r: Self)
        ensures
            r.wf(),
            r.hook_lists() == seq![
                Seq::<ShutdownHook>::empty(),
                Seq::<ShutdownHook>::empty(),
                Seq::<ShutdownHook>::empty(),
            ],
            r.timeouts() == seq![secs_duration(30), secs_duration(30), secs_duration(30)],
            r.global_budget() is None,
            r.executed() == Seq::<ShutdownHook>::empty(),
    {
        Self::new()
    }
}

/// The hooks of one asynchronous phase and its time budget.
struct AsyncPhaseConfig<H> {
    hooks: Vec<H>,
    timeout: Duration,
}

impl<H> AsyncPhaseConfig<H> {
    /// A phase with no hooks and the given budget.
    fn new(timeout: Duration) -> (r: Self)
        ensures
            r.hooks@ == Seq::<H>::empty(),
            r.timeout == timeout,
    {
        AsyncPhaseConfig { hooks: Vec::new(), timeout }
    }
}

/// Asynchronous graceful-shutdown coordinator: the registry of hooks and
/// budgets; the hooks themselves (of type `H`, typically boxed closures
/// returning futures) are awaited by the caller's shutdown loop, which
/// drains each phase with [`Self::take_phase`] and decides before each hook
/// with [`evaluate_timeout`].
pub struct AsyncShutdownCoordinator<H> {
    phases: Vec<AsyncPhaseConfig<H>>,
    global_timeout: Option<Duration>,
}

impl<H> AsyncShutdownCoordinator<H> {
    /// Exactly three phases, each with its hooks and budget.
    pub open spec fn wf(self) -> bool {
        &&& self.hook_lists().len() == 3
        &&& self.timeouts().len() == 3
    }

    /// Hooks waiting in each phase, by phase position.
    pub closed spec fn hook_lists(self) -> Seq<Seq<H>> {
        Seq::new(self.phases@.len(), |p: int| self.phases@[p].hooks@)
    }

    /// Budget of each phase, by phase position.
    pub closed spec fn timeouts(self) -> Seq<Duration> {
        Seq::new(self.phases@.len(), |p: int| self.phases@[p].timeout)
    }

    /// The global budget, if set.
    pub closed spec fn global_budget(self) -> Option<Duration> {
        self.global_timeout
    }

    /// A coordinator with no hooks, a 30 second budget per phase and no
    /// global budget.
    pub fn new() -> (r: Self)
        ensures
            r.wf(),
            r.hook_lists() == seq![Seq::<H>::empty(), Seq::<H>::empty(), Seq::<H>::empty()],
            r.timeouts() == seq![secs_duration(30), secs_duration(30), secs_duration(30)],
            r.global_budget() is None,
    {
        let mut phases: Vec<AsyncPhaseConfig<H>> = Vec::new();
        phases.push(AsyncPhaseConfig::new(duration_from_secs(30)));
        phases.push(AsyncPhaseConfig::new(duration_from_secs(30)));
        phases.push(AsyncPhaseConfig::new(duration_from_secs(30)));
        let r = AsyncShutdownCoordinator { phases, global_timeout: None };
        proof {
            assert(r.hook_lists() =~= seq![Seq::<H>::empty(), Seq::<H>::empty(), Seq::<H>::empty()]);
            assert(r.timeouts() =~= seq![secs_duration(30), secs_duration(30), secs_duration(30)]);
        }
        r
    }

    /// Set the budget of the whole shutdown. Always succeeds: the
    /// coordinator is borrowed exclusively, so no other writer can have
    /// left it half-updated.
    pub fn set_global_timeout(&mut self, timeout: Duration) -> (r: Result<(), TraitKitError>)
        requires
            old(self).wf(),
        ensures
            r is Ok,
            final(self).wf(),
            final(self).global_budget() == Some(timeout),
            final(self).hook_lists() == old(self).hook_lists(),
            final(self).timeouts() == old(self).timeouts(),
    {
        self.global_timeout = Some(timeout);
        Ok(())
    }

    /// Set the budget of one phase. Always succeeds.
    pub fn set_phase_timeout(&mut self, phase: ShutdownPhase, timeout: Duration) -> (r: Result<
        (),
        TraitKitError,
    >)
        requires
            old(self).wf(),
        ensures
            r is Ok,
            final(self).wf(),
            final(self).timeouts() == old(self).timeouts().update(phase.ord(), timeout),
            final(self).hook_lists() == old(self).hook_lists(),
            final(self).global_budget() == old(self).global_budget(),
    {
        let idx = phase.index();
        let hooks_before = Ghost(self.hook_lists());
        self.phases[idx].timeout = timeout;
        proof {
            assert(self.timeouts() =~= old(self).timeouts().update(phase.ord(), timeout));
            assert(self.hook_lists() =~= hooks_before@);
        }
        Ok(())
    }

    /// Register a hook in a phase. Hooks of one phase run in registration
    /// order. Always succeeds.
    pub fn register_hook(&mut self, phase: ShutdownPhase, hook: H) -> (r: Result<(), TraitKitError>)
        requires
            old(self).wf(),
        ensures
            r is Ok,
            final(self).wf(),
            final(self).hook_lists() == old(self).hook_lists().update(
                phase.ord(),
                old(self).hook_lists()[phase.ord()].push(hook),
            ),
            final(self).timeouts() == old(self).timeouts(),
            final(self).global_budget() == old(self).global_budget(),
    {
        let idx = phase.index();
        let ghost h = hook;
        self.phases[idx].hooks.push(hook);
        proof {
            assert(self.hook_lists() =~= old(self).hook_lists().update(
                phase.ord(),
                old(self).hook_lists()[phase.ord()].push(h),
            ));
            assert(self.timeouts() =~= old(self).timeouts());
        }
        Ok(())
    }

    /// The global budget, if set.
    pub fn global_timeout(&self) -> (r: Option<Duration>)
        ensures
            r == self.global_budget(),
    {
        self.global_timeout
    }

    /// Drain the hooks of `phase`, in registration order, with its budget.
    pub fn take_phase(&mut self, phase: ShutdownPhase) -> (r: (Vec<H>, Duration))
        requires
            old(self).wf(),
        ensures
            final(self).wf(),
            r.0@ == old(self).hook_lists()[phase.ord()],
            r.1 == old(self).timeouts()[phase.ord()],
            final(self).hook_lists() == old(self).hook_lists().update(phase.ord(), Seq::<H>::empty()),
            final(self).timeouts() == old(self).timeouts(),
            final(self).global_budget() == old(self).global_budget(),
    {
        let idx = phase.index();
        let mut hooks: Vec<H> = Vec::new();
        std::mem::swap(&mut hooks, &mut self.phases[idx].hooks);
        let timeout = self.phases[idx].timeout;
        proof {
            assert(self.hook_lists() =~= old(self).hook_lists().update(phase.ord(), Seq::<H>::empty()));
            assert(self.timeouts() =~= old(self).timeouts());
        }
        (hooks, timeout)
    }
}

impl<H> Default for AsyncShutdownCoordinator<H> {
    fn default() -> (r: Self)
        ensures
            r.wf(),
            r.hook_lists() == seq![Seq::<H>::empty(), Seq::<H>::empty(), Seq::<H>::empty()],
            r.timeouts() == seq![secs_duration(30), secs_duration(30), secs_duration(30)],
            r.global_budget() is None,
    {
        Self::new()
    }
}

} // verus!
