//! The store's transaction protocol: lock acquisition with backoff, then read, write,
//! sync and replace, releasing the lock on every failure once it is held.

use vstd::prelude::*;

verus! {

/// The first wait after finding the lock held, in milliseconds.
pub const LOCK_INITIAL_DELAY_MS: u64 = 50;

/// Once this much time in total has been spent waiting, acquisition gives up.
pub const LOCK_TIMEOUT_MS: u64 = 2000;

/// What one attempt to create the lock file exclusively came to.
#[derive(Clone, Copy, Debug, PartialEq, Eq, Structural)]
pub enum LockAttempt {
    Created,
    AlreadyExists,
    /// Creation failed for another reason (permissions, a missing directory, ...).
    Failed,
}

/// What to do after an attempt.
#[derive(Clone, Copy, Debug, PartialEq, Eq, Structural)]
pub enum LockDecision {
    Acquired,
    RetryAfter { millis: u64 },
    TimedOut,
    Failed,
}

/// Exponential backoff for acquiring the lock: the delay doubles after each wait.
#[derive(Clone, Copy, Debug, PartialEq, Eq, Structural)]
pub struct LockBackoff {
    pub delay_ms: u64,
    pub waited_ms: u64,
}

impl LockBackoff {
    /// Nothing beyond the timeout has been waited; until the timeout is reached the
    /// delay is the initial one plus all the time waited so far.
    pub open spec fn wf(self) -> bool {
        &&& self.waited_ms <= LOCK_TIMEOUT_MS
        &&& self.waited_ms < LOCK_TIMEOUT_MS ==> self.delay_ms == self.waited_ms + LOCK_INITIAL_DELAY_MS
        &&& self.delay_ms <= 2 * (LOCK_TIMEOUT_MS + LOCK_INITIAL_DELAY_MS)
    }

    /// The next wait: the current delay, cut short so that the waits end at the timeout.
    pub open spec fn next_wait(self) -> u64 {
        if self.delay_ms <= LOCK_TIMEOUT_MS - self.waited_ms {
            self.delay_ms
        } else {
            (LOCK_TIMEOUT_MS - self.waited_ms) as u64
        }
    }

    pub fn new() -> (r: LockBackoff)
        ensures
            r.wf(),
            r.waited_ms == 0,
            r.delay_ms == LOCK_INITIAL_DELAY_MS,
    {
        LockBackoff { delay_ms: LOCK_INITIAL_DELAY_MS, waited_ms: 0 }
    }

    /// Decides what follows an attempt. A held lock is waited for, the delay doubling
    /// each time, until the waits add up to the timeout; any other failure is final.
    pub fn next(&mut self, attempt: LockAttempt) -> (d: LockDecision)
        requires
            old(self).wf(),
        ensures
            final(self).wf(),
            final(self).waited_ms <= LOCK_TIMEOUT_MS,
            attempt == LockAttempt::Created ==> d == LockDecision::Acquired && *final(self) == *old(self),
            attempt == LockAttempt::Failed ==> d == LockDecision::Failed && *final(self) == *old(self),
            attempt == LockAttempt::AlreadyExists && old(self).waited_ms >= LOCK_TIMEOUT_MS ==> d
                == LockDecision::TimedOut && *final(self) == *old(self),
            attempt == LockAttempt::AlreadyExists && old(self).waited_ms < LOCK_TIMEOUT_MS ==> {
                &&& d == (LockDecision::RetryAfter { millis: old(self).next_wait() })
                &&& final(self).waited_ms == old(self).waited_ms + old(self).next_wait()
                &&& final(self).delay_ms == 2 * old(self).delay_ms
            },
    {
        match attempt {
            LockAttempt::Created => LockDecision::Acquired,
            LockAttempt::Failed => LockDecision::Failed,
            LockAttempt::AlreadyExists => {
                if self.waited_ms >= LOCK_TIMEOUT_MS {
                    LockDecision::TimedOut
                } else {
                    let d = self.delay_ms;
                    let left = LOCK_TIMEOUT_MS - self.waited_ms;
                    let w = if d <= left { d } else { left };
                    self.waited_ms = self.waited_ms + w;
                    self.delay_ms = 2 * d;
                    LockDecision::RetryAfter { millis: w }
                }
            },
        }
    }
}

/// The waits a backoff goes through, from state (`waited`, `delay`), while the lock
/// stays held: the delay doubling each time, the last wait cut short at the timeout.
pub open spec fn waits_while_held(waited: nat, delay: nat) -> Seq<nat>
    decreases (if waited >= LOCK_TIMEOUT_MS { 0 } else { LOCK_TIMEOUT_MS - waited }),
{
    if waited >= LOCK_TIMEOUT_MS || delay == 0 {
        Seq::empty()
    } else {
        let w: nat = if delay <= LOCK_TIMEOUT_MS - waited { delay } else { (LOCK_TIMEOUT_MS - waited) as nat };
        seq![w] + waits_while_held(waited + w, 2 * delay)
    }
}

pub open spec fn total(s: Seq<nat>) -> nat
    decreases s.len(),
{
    if s.len() == 0 {
        0
    } else {
        s[0] + total(s.skip(1))
    }
}

/// While the lock stays held, the waits still to come add up to exactly what is left
/// of the timeout.
pub proof fn lemma_waits_reach_timeout(waited: nat, delay: nat)
    requires
        waited <= LOCK_TIMEOUT_MS,
        delay > 0,
    ensures
        total(waits_while_held(waited, delay)) == LOCK_TIMEOUT_MS - waited,
    decreases LOCK_TIMEOUT_MS - waited,
{
    if waited < LOCK_TIMEOUT_MS {
        let w: nat = if delay <= LOCK_TIMEOUT_MS - waited { delay } else { (LOCK_TIMEOUT_MS - waited) as nat };
        lemma_waits_reach_timeout(waited + w, 2 * delay);
        let s = waits_while_held(waited, delay);
        assert(s.skip(1) =~= waits_while_held(waited + w, 2 * delay));
    } else {
        assert(waits_while_held(waited, delay) =~= Seq::<nat>::empty());
    }
}

/// While another process holds the lock, a fresh backoff waits 50, 100, 200, 400,
/// 800 and then 450 ms, 2000 ms in all, and then gives up.
pub proof fn lemma_backoff_gives_up()
    ensures
        waits_while_held(0, LOCK_INITIAL_DELAY_MS as nat) == seq![50nat, 100, 200, 400, 800, 450],
        total(waits_while_held(0, LOCK_INITIAL_DELAY_MS as nat)) == LOCK_TIMEOUT_MS,
{
    reveal_with_fuel(waits_while_held, 8);
    assert(waits_while_held(0, 50) =~= seq![50nat, 100, 200, 400, 800, 450]);
    lemma_waits_reach_timeout(0, 50);
}

/// Where a transaction stands.
#[derive(Clone, Copy, Debug, PartialEq, Eq, Structural)]
pub enum TxPhase {
    /// Creating the lock file, which also serves as the staging file.
    Locking,
    /// Reading and decoding the store; the caller's modifier then runs on what it holds.
    Reading,
    /// Writing the encoded new collection into the staging file.
    Writing,
    /// Forcing the staged content to storage.
    Syncing,
    /// Renaming the staging file over the store.
    Replacing,
    /// The store was replaced; the rename released the lock.
    Committed,
    /// The transaction failed; the store is untouched.
    Aborted,
}

/// Which step failed.
#[derive(Clone, Copy, Debug, PartialEq, Eq, Structural)]
pub enum TxFailure {
    LockTimedOut,
    LockFailed,
    Read,
    Write,
    Sync,
    Replace,
}

/// What the caller does next.
#[derive(Clone, Copy, Debug, PartialEq, Eq, Structural)]
pub enum TxAction {
    TryLock,
    Wait { millis: u64 },
    ReadStore,
    WriteStaged,
    SyncStaged,
    ReplaceStore,
    Finish,
    /// Give up with `failure`, first deleting the lock file where it is held.
    Abort { failure: TxFailure, remove_lock: bool },
}

/// The decisions of one read-modify-write transaction over the store; the caller
/// performs each action and reports how it went.
#[derive(Clone, Copy, Debug, PartialEq, Eq, Structural)]
pub struct Transaction {
    pub phase: TxPhase,
    pub backoff: LockBackoff,
}

impl Transaction {
    pub open spec fn wf(self) -> bool {
        self.backoff.wf()
    }

    /// A transaction that has not tried the lock yet; its first action is `TryLock`.
    pub fn new() -> (r: Transaction)
        ensures
            r.wf(),
            r.phase == TxPhase::Locking,
            r.backoff.waited_ms == 0,
            r.backoff.delay_ms == LOCK_INITIAL_DELAY_MS,
    {
        Transaction { phase: TxPhase::Locking, backoff: LockBackoff::new() }
    }

    /// Decides what follows an attempt to create the lock file.
    pub fn on_lock_attempt(&mut self, attempt: LockAttempt) -> (a: TxAction)
        requires
            old(self).wf(),
            old(self).phase == TxPhase::Locking,
        ensures
            final(self).wf(),
            attempt == LockAttempt::Created ==> a == TxAction::ReadStore && final(self).phase == TxPhase::Reading,
            final(self).backoff.waited_ms <= LOCK_TIMEOUT_MS,
            attempt == LockAttempt::Created ==> final(self).backoff == old(self).backoff,
            attempt == LockAttempt::Failed ==> a == (TxAction::Abort { failure: TxFailure::LockFailed, remove_lock: false })
                && final(self).phase == TxPhase::Aborted && final(self).backoff == old(self).backoff,
            attempt == LockAttempt::AlreadyExists && old(self).backoff.waited_ms >= LOCK_TIMEOUT_MS ==> a
                == (TxAction::Abort { failure: TxFailure::LockTimedOut, remove_lock: false }) && final(self).phase
                == TxPhase::Aborted && final(self).backoff == old(self).backoff,
            attempt == LockAttempt::AlreadyExists && old(self).backoff.waited_ms < LOCK_TIMEOUT_MS ==> {
                &&& a == (TxAction::Wait { millis: old(self).backoff.next_wait() })
                &&& final(self).phase == TxPhase::Locking
                &&& final(self).backoff.waited_ms == old(self).backoff.waited_ms + old(self).backoff.next_wait()
                &&& final(self).backoff.delay_ms == 2 * old(self).backoff.delay_ms
            },
    {
        match self.backoff.next(attempt) {
            LockDecision::Acquired => {
                self.phase = TxPhase::Reading;
                TxAction::ReadStore
            },
            LockDecision::RetryAfter { millis } => TxAction::Wait { millis },
            LockDecision::TimedOut => {
                self.phase = TxPhase::Aborted;
                TxAction::Abort { failure: TxFailure::LockTimedOut, remove_lock: false }
            },
            LockDecision::Failed => {
                self.phase = TxPhase::Aborted;
                TxAction::Abort { failure: TxFailure::LockFailed, remove_lock: false }
            },
        }
    }

    /// Decides what follows a step taken while the lock is held: on success the next
    /// step, on failure the lock file is deleted and the transaction gives up.
    pub fn on_step(&mut self, succeeded: bool) -> (a: TxAction)
        requires
            old(self).wf(),
            old(self).phase == TxPhase::Reading || old(self).phase == TxPhase::Writing || old(self).phase
                == TxPhase::Syncing || old(self).phase == TxPhase::Replacing,
        ensures
            final(self).wf(),
            final(self).backoff == old(self).backoff,
            !succeeded ==> final(self).phase == TxPhase::Aborted && a == (TxAction::Abort {
                failure: match old(self).phase {
                    TxPhase::Reading => TxFailure::Read,
                    TxPhase::Writing => TxFailure::Write,
                    TxPhase::Syncing => TxFailure::Sync,
                    _ => TxFailure::Replace,
                },
                remove_lock: true,
            }),
            succeeded ==> match old(self).phase {
                TxPhase::Reading => final(self).phase == TxPhase::Writing && a == TxAction::WriteStaged,
                TxPhase::Writing => final(self).phase == TxPhase::Syncing && a == TxAction::SyncStaged,
                TxPhase::Syncing => final(self).phase == TxPhase::Replacing && a == TxAction::ReplaceStore,
                _ => final(self).phase == TxPhase::Committed && a == TxAction::Finish,
            },
    {
        let phase = self.phase;
        if !succeeded {
            self.phase = TxPhase::Aborted;
            let failure = match phase {
                TxPhase::Reading => TxFailure::Read,
                TxPhase::Writing => TxFailure::Write,
                TxPhase::Syncing => TxFailure::Sync,
                _ => TxFailure::Replace,
            };
            return TxAction::Abort { failure, remove_lock: true };
        }
        match phase {
            TxPhase::Reading => {
                self.phase = TxPhase::Writing;
                TxAction::WriteStaged
            },
            TxPhase::Writing => {
                self.phase = TxPhase::Syncing;
                TxAction::SyncStaged
            },
            TxPhase::Syncing => {
                self.phase = TxPhase::Replacing;
                TxAction::ReplaceStore
            },
            _ => {
                self.phase = TxPhase::Committed;
                TxAction::Finish
            },
        }
    }
}

} // verus!
