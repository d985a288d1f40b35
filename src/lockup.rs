use vstd::prelude::*;

use crate::schedule::{min_balance, lemma_unlocked_monotonic, Balance, Schedule, TimestampSec};

verus! {

/// Identity of an account on the ledger.
pub type AccountId = String;

/// Position of a lockup in the store.
pub type LockupIndex = u32;

/// Why a request was refused.
#[derive(Clone, Copy, Debug, PartialEq, Eq, Structural)]
pub enum LockupError {
    NotFound,
    Unauthorized,
    InvalidState,
    InvalidTimestamp,
    Overflow,
    AlreadyTerminated,
}

/// Which curve decides the vested amount at termination.
#[derive(Debug)]
pub enum VestingConditions {
    SameAsLockupSchedule,
    Schedule(Schedule),
}

/// Who receives the unvested balance at termination, and by which curve it is measured.
#[derive(Debug)]
pub struct TerminationConfig {
    pub beneficiary_id: AccountId,
    pub vesting_schedule: VestingConditions,
}

/// One grant of tokens to one account.
#[derive(Debug)]
pub struct Lockup {
    pub account_id: AccountId,
    pub schedule: Schedule,
    pub claimed_balance: Balance,
    pub termination_config: Option<TerminationConfig>,
}

impl Lockup {
    /// The schedule is a valid curve and no more than its total has been claimed.
    pub open spec fn wf(&self) -> bool {
        &&& self.schedule.wf()
        &&& self.claimed_balance <= self.schedule.spec_total()
    }

    /// Unlocked and not yet claimed as of `now`.
    pub open spec fn spec_unclaimed(&self, now: TimestampSec) -> Balance {
        if self.schedule.spec_unlocked(now) >= self.claimed_balance {
            (self.schedule.spec_unlocked(now) - self.claimed_balance) as Balance
        } else {
            0
        }
    }

    /// Amount vested at `t` by the termination policy.
    pub open spec fn spec_vested(&self, t: TimestampSec) -> Balance {
        match self.termination_config {
            Some(c) => match c.vesting_schedule {
                VestingConditions::SameAsLockupSchedule => self.schedule.spec_unlocked(t),
                VestingConditions::Schedule(s) => s.spec_unlocked(t),
            },
            None => 0,
        }
    }

    /// The error that terminating at `t`, at time `now`, meets, if any: the termination was
    /// already consumed; `t` lies in the past; or the vested amount does not lie between
    /// what was already claimed and the grant's total, so that settling it would take back
    /// paid-out tokens or pay out more than the grant holds.
    pub open spec fn terminate_error(&self, now: TimestampSec, t: TimestampSec) -> Option<
        LockupError,
    > {
        if self.termination_config is None {
            Some(LockupError::AlreadyTerminated)
        } else if t < now {
            Some(LockupError::InvalidTimestamp)
        } else if self.spec_vested(t) > self.schedule.spec_total() || self.spec_vested(t)
            < self.claimed_balance {
            Some(LockupError::InvalidState)
        } else {
            None
        }
    }

    /// Unlocked and not yet claimed as of `now`.
    pub fn unclaimed_balance(&self, now: TimestampSec) -> (r: Balance)
        ensures
            r == self.spec_unclaimed(now),
    {
        let unlocked = self.schedule.unlocked_balance(now);
        if unlocked >= self.claimed_balance {
            unlocked - self.claimed_balance
        } else {
            0
        }
    }

    /// Claims `amount`, capped at what is unlocked and unclaimed at `now`; returns the
    /// amount claimed.
    pub fn claim(&mut self, amount: Balance, now: TimestampSec) -> (r: Balance)
        requires
            old(self).wf(),
        ensures
            r == min_balance(amount, old(self).spec_unclaimed(now)),
            final(self).claimed_balance == old(self).claimed_balance + r,
            final(self).account_id == old(self).account_id,
            final(self).schedule == old(self).schedule,
            final(self).termination_config == old(self).termination_config,
            final(self).wf(),
            old(self).claimed_balance <= old(self).schedule.spec_unlocked(now)
                ==> final(self).claimed_balance <= final(self).schedule.spec_unlocked(now),
    {
        proof {
            lemma_unlocked_monotonic(self.schedule.0@, now, now);
        }
        let unclaimed = self.unclaimed_balance(now);
        let r = if amount <= unclaimed {
            amount
        } else {
            unclaimed
        };
        self.claimed_balance = self.claimed_balance + r;
        r
    }

    /// Gives back `amount` of an earlier claim whose payout failed.
    pub fn unclaim(&mut self, amount: Balance)
        requires
            old(self).wf(),
            amount <= old(self).claimed_balance,
        ensures
            final(self).wf(),
            final(self).claimed_balance == old(self).claimed_balance - amount,
            final(self).account_id == old(self).account_id,
            final(self).schedule == old(self).schedule,
            final(self).termination_config == old(self).termination_config,
    {
        self.claimed_balance = self.claimed_balance - amount;
    }

    /// Amount vested at `t` by the termination policy; zero once terminated.
    pub fn vested_balance(&self, t: TimestampSec) -> (r: Balance)
        ensures
            r == self.spec_vested(t),
    {
        match &self.termination_config {
            Some(c) => match &c.vesting_schedule {
                VestingConditions::SameAsLockupSchedule => self.schedule.unlocked_balance(t),
                VestingConditions::Schedule(s) => s.unlocked_balance(t),
            },
            None => 0,
        }
    }

    /// Terminates the grant at `termination_timestamp`, at time `now`: caps the schedule at
    /// the vested amount and returns the unvested amount with its beneficiary.
    pub fn terminate(&mut self, now: TimestampSec, termination_timestamp: TimestampSec) -> (r:
        Result<(Balance, AccountId), LockupError>)
        requires
            old(self).wf(),
        ensures
            final(self).wf(),
            match r {
                Err(e) => old(self).terminate_error(now, termination_timestamp) == Some(e)
                    && *final(self) == *old(self),
                Ok((unvested, beneficiary)) => {
                    let vested = old(self).spec_vested(termination_timestamp);
                    &&& old(self).terminate_error(now, termination_timestamp) is None
                    &&& beneficiary@ == old(self).termination_config->0.beneficiary_id@
                    &&& unvested == old(self).schedule.spec_total() - vested
                    &&& final(self).termination_config is None
                    &&& final(self).account_id == old(self).account_id
                    &&& final(self).claimed_balance == old(self).claimed_balance
                    &&& final(self).schedule.spec_total() == vested
                    &&& unvested == 0 ==> final(self).schedule == old(self).schedule
                    &&& unvested > 0 ==> (forall|t: TimestampSec| t >= termination_timestamp
                        ==> #[trigger] final(self).schedule.spec_unlocked(t) == vested)
                    &&& unvested > 0 ==> (forall|t: TimestampSec| t < termination_timestamp
                        ==> #[trigger] final(self).schedule.spec_unlocked(t) == min_balance(
                        old(self).schedule.spec_unlocked(t), vested))
                },
            },
    {
        let beneficiary = match &self.termination_config {
            None => {
                return Err(LockupError::AlreadyTerminated);
            },
            Some(c) => c.beneficiary_id.clone(),
        };
        if termination_timestamp < now {
            return Err(LockupError::InvalidTimestamp);
        }
        let vested = self.vested_balance(termination_timestamp);
        let total = self.schedule.total_balance();
        if vested > total || vested < self.claimed_balance {
            return Err(LockupError::InvalidState);
        }
        let unvested = total - vested;
        if unvested > 0 {
            self.schedule.terminate(vested, termination_timestamp);
        }
        self.termination_config = None;
        Ok((unvested, beneficiary))
    }
}

/// Once unlocked, an amount stays unlocked: a claimed balance covered at one time is
/// covered at every later time.
pub proof fn lemma_claimed_stays_unlocked(l: Lockup, t1: TimestampSec, t2: TimestampSec)
    requires
        l.wf(),
        l.claimed_balance <= l.schedule.spec_unlocked(t1),
        t1 <= t2,
    ensures
        l.claimed_balance <= l.schedule.spec_unlocked(t2),
        l.schedule.spec_unlocked(t2) <= l.schedule.spec_total(),
{
    lemma_unlocked_monotonic(l.schedule.0@, t1, t2);
}

/// A lockup whose termination has been consumed refuses every further termination with
/// `AlreadyTerminated`, whatever the times given.
pub proof fn lemma_terminate_exactly_once(l: Lockup, now: TimestampSec, t: TimestampSec)
    requires
        l.termination_config is None,
    ensures
        l.terminate_error(now, t) == Some(LockupError::AlreadyTerminated),
{
}

} // verus!
