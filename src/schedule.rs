use vstd::prelude::*;

verus! {

/// Seconds since the Unix epoch.
pub type TimestampSec = u32;

/// Amount of fungible tokens.
pub type Balance = u128;

/// One point of a vesting curve: from `timestamp` on, `balance` tokens are unlocked in total.
#[derive(Clone, Copy, Debug, PartialEq, Eq, Structural)]
pub struct Checkpoint {
    pub timestamp: TimestampSec,
    pub balance: Balance,
}

/// A vesting curve: checkpoints ordered by time and by cumulative balance.
#[derive(Debug)]
pub struct Schedule(pub Vec<Checkpoint>);

/// Checkpoints are non-empty and non-decreasing in both time and balance.
pub open spec fn checkpoints_wf(s: Seq<Checkpoint>) -> bool {
    &&& s.len() >= 1
    &&& forall|i: int, j: int|
        #![trigger s[i], s[j]]
        0 <= i <= j < s.len() ==> s[i].timestamp <= s[j].timestamp && s[i].balance <= s[j].balance
}

/// Total size of the grant: the balance of the last checkpoint.
pub open spec fn total_of(s: Seq<Checkpoint>) -> Balance {
    if s.len() == 0 {
        0
    } else {
        s.last().balance
    }
}

/// Step curve: the balance of the last checkpoint whose time is at or before `t`,
/// or the first checkpoint's balance when `t` comes before all of them.
pub open spec fn unlocked_at(s: Seq<Checkpoint>, t: TimestampSec) -> Balance
    decreases s.len(),
{
    if s.len() == 0 {
        0
    } else if s.len() == 1 {
        s[0].balance
    } else if s.last().timestamp <= t {
        s.last().balance
    } else {
        unlocked_at(s.drop_last(), t)
    }
}

/// The checkpoints with time capped at `t` and balance capped at `v`.
pub open spec fn capped(s: Seq<Checkpoint>, t: TimestampSec, v: Balance) -> Seq<Checkpoint> {
    s.map_values(
        |c: Checkpoint|
            Checkpoint {
                timestamp: if c.timestamp <= t { c.timestamp } else { t },
                balance: if c.balance <= v { c.balance } else { v },
            },
    )
}

pub open spec fn min_balance(a: Balance, b: Balance) -> Balance {
    if a <= b {
        a
    } else {
        b
    }
}

proof fn lemma_wf_drop_last(s: Seq<Checkpoint>)
    requires
        checkpoints_wf(s),
        s.len() >= 2,
    ensures
        checkpoints_wf(s.drop_last()),
{
    let d = s.drop_last();
    assert forall|i: int, j: int| #![trigger d[i], d[j]]
        0 <= i <= j < d.len() implies d[i].timestamp <= d[j].timestamp && d[i].balance
            <= d[j].balance by {
        assert(d[i] == s[i] && d[j] == s[j]);
    }
}

/// The unlocked amount lies between the first checkpoint's balance and the total.
pub proof fn lemma_unlocked_bounded(s: Seq<Checkpoint>, t: TimestampSec)
    requires
        checkpoints_wf(s),
    ensures
        s[0].balance <= unlocked_at(s, t) <= total_of(s),
    decreases s.len(),
{
    if s.len() >= 2 && s.last().timestamp > t {
        lemma_wf_drop_last(s);
        lemma_unlocked_bounded(s.drop_last(), t);
        assert(s.drop_last()[0] == s[0]);
        assert(s[s.len() - 2].balance <= s[s.len() - 1].balance);
    } else if s.len() >= 2 {
        assert(s[0].balance <= s[s.len() - 1].balance);
    }
}

/// Unlocking never goes backwards in time, and never exceeds the total.
pub proof fn lemma_unlocked_monotonic(s: Seq<Checkpoint>, t1: TimestampSec, t2: TimestampSec)
    requires
        checkpoints_wf(s),
        t1 <= t2,
    ensures
        unlocked_at(s, t1) <= unlocked_at(s, t2),
        unlocked_at(s, t2) <= total_of(s),
    decreases s.len(),
{
    lemma_unlocked_bounded(s, t2);
    if s.len() >= 2 {
        lemma_wf_drop_last(s);
        if s.last().timestamp > t2 {
            lemma_unlocked_monotonic(s.drop_last(), t1, t2);
        } else if s.last().timestamp > t1 {
            lemma_unlocked_bounded(s.drop_last(), t1);
            assert(s[s.len() - 2].balance <= s[s.len() - 1].balance);
        }
    }
}

proof fn lemma_unlocked_take(s: Seq<Checkpoint>, k: int, t: TimestampSec)
    requires
        1 <= k <= s.len(),
        forall|j: int| k <= j < s.len() ==> #[trigger] s[j].timestamp > t,
    ensures
        unlocked_at(s, t) == unlocked_at(s.take(k), t),
    decreases s.len(),
{
    if s.len() == k {
        assert(s.take(k) =~= s);
    } else {
        assert(s.drop_last().take(k) =~= s.take(k));
        lemma_unlocked_take(s.drop_last(), k, t);
    }
}

proof fn lemma_unlocked_capped(p: Seq<Checkpoint>, t: TimestampSec, v: Balance, t1: TimestampSec)
    requires
        p.len() >= 1,
        t1 < t,
    ensures
        unlocked_at(capped(p, t, v), t1) == min_balance(unlocked_at(p, t1), v),
    decreases p.len(),
{
    let c = capped(p, t, v);
    if p.len() >= 2 {
        assert(c.drop_last() =~= capped(p.drop_last(), t, v));
        lemma_unlocked_capped(p.drop_last(), t, v, t1);
    }
}

proof fn lemma_terminated_curve(p: Seq<Checkpoint>, t: TimestampSec, v: Balance)
    requires
        checkpoints_wf(p),
    ensures
        checkpoints_wf(capped(p, t, v).push(Checkpoint { timestamp: t, balance: v })),
        total_of(capped(p, t, v).push(Checkpoint { timestamp: t, balance: v })) == v,
        forall|t1: TimestampSec|
            t1 >= t ==> #[trigger] unlocked_at(
                capped(p, t, v).push(Checkpoint { timestamp: t, balance: v }),
                t1,
            ) == v,
        forall|t1: TimestampSec|
            t1 < t ==> #[trigger] unlocked_at(
                capped(p, t, v).push(Checkpoint { timestamp: t, balance: v }),
                t1,
            ) == min_balance(unlocked_at(p, t1), v),
{
    let c = capped(p, t, v);
    let n = c.push(Checkpoint { timestamp: t, balance: v });
    assert forall|i: int, j: int| #![trigger n[i], n[j]]
        0 <= i <= j < n.len() implies n[i].timestamp <= n[j].timestamp && n[i].balance
            <= n[j].balance by {
        if j < c.len() {
            assert(p[i].timestamp <= p[j].timestamp && p[i].balance <= p[j].balance);
        }
    }
    assert forall|t1: TimestampSec| t1 < t implies #[trigger] unlocked_at(n, t1) == min_balance(
        unlocked_at(p, t1),
        v,
    ) by {
        assert(n.drop_last() =~= c);
        lemma_unlocked_capped(p, t, v, t1);
    }
}

impl Schedule {
    pub open spec fn spec_total(&self) -> Balance {
        total_of(self.0@)
    }

    pub open spec fn spec_unlocked(&self, t: TimestampSec) -> Balance {
        unlocked_at(self.0@, t)
    }

    pub open spec fn wf(&self) -> bool {
        checkpoints_wf(self.0@)
    }

    /// A copy of this schedule.
    pub fn duplicate(&self) -> (r: Schedule)
        ensures
            r.0@ == self.0@,
    {
        let mut v: Vec<Checkpoint> = Vec::new();
        let mut i: usize = 0;
        while i < self.0.len()
            invariant
                i <= self.0@.len(),
                v@ == self.0@.take(i as int),
            decreases self.0@.len() - i,
        {
            v.push(self.0[i]);
            i += 1;
            assert(v@ =~= self.0@.take(i as int));
        }
        assert(self.0@.take(i as int) =~= self.0@);
        Schedule(v)
    }

    /// Checks that the schedule is non-empty and ordered in time and balance.
    pub fn is_valid(&self) -> (r: bool)
        ensures
            r == self.wf(),
    {
        let n = self.0.len();
        if n == 0 {
            return false;
        }
        let mut i: usize = 1;
        while i < n
            invariant
                n == self.0@.len(),
                1 <= i <= n,
                checkpoints_wf(self.0@.take(i as int)),
            decreases n - i,
        {
            let a = self.0[i - 1];
            let b = self.0[i];
            if a.timestamp > b.timestamp || a.balance > b.balance {
                assert(!checkpoints_wf(self.0@)) by {
                    let s = self.0@;
                    assert(s[i - 1] == a && s[i as int] == b);
                }
                return false;
            }
            proof {
                let s = self.0@;
                let p = s.take(i as int);
                let q = s.take(i + 1);
                assert forall|x: int, y: int| #![trigger q[x], q[y]]
                    0 <= x <= y < q.len() implies q[x].timestamp <= q[y].timestamp
                        && q[x].balance <= q[y].balance by {
                    if y == i {
                        if x < i {
                            assert(p[x] == q[x] && p[i - 1] == q[i - 1]);
                            assert(p[x].timestamp <= p[i - 1].timestamp && p[x].balance <= p[i - 1].balance);
                        }
                    } else {
                        assert(p[x] == q[x] && p[y] == q[y]);
                    }
                }
            }
            i += 1;
        }
        assert(self.0@.take(n as int) =~= self.0@);
        true
    }

    /// Total size of the grant.
    pub fn total_balance(&self) -> (r: Balance)
        ensures
            r == self.spec_total(),
    {
        let n = self.0.len();
        if n == 0 {
            0
        } else {
            self.0[n - 1].balance
        }
    }

    /// Amount unlocked as of time `t`.
    pub fn unlocked_balance(&self, t: TimestampSec) -> (r: Balance)
        ensures
            r == self.spec_unlocked(t),
    {
        let n = self.0.len();
        if n == 0 {
            return 0;
        }
        let mut r: Balance = self.0[0].balance;
        let mut i: usize = 1;
        while i < n
            invariant
                n == self.0@.len(),
                1 <= i <= n,
                r == unlocked_at(self.0@.take(i as int), t),
            decreases n - i,
        {
            assert(self.0@.take(i + 1).drop_last() =~= self.0@.take(i as int));
            if self.0[i].timestamp <= t {
                r = self.0[i].balance;
            }
            i += 1;
        }
        assert(self.0@.take(n as int) =~= self.0@);
        r
    }

    /// Caps the curve at `vested_balance` from `termination_timestamp` on; before that
    /// time the curve is kept, capped at `vested_balance`.
    pub fn terminate(&mut self, vested_balance: Balance, termination_timestamp: TimestampSec)
        requires
            old(self).wf(),
            vested_balance <= old(self).spec_total(),
        ensures
            final(self).wf(),
            final(self).spec_total() == vested_balance,
            forall|t: TimestampSec|
                t >= termination_timestamp ==> #[trigger] final(self).spec_unlocked(t)
                    == vested_balance,
            forall|t: TimestampSec|
                t < termination_timestamp ==> #[trigger] final(self).spec_unlocked(t)
                    == min_balance(old(self).spec_unlocked(t), vested_balance),
    {
        let ghost s = self.0@;
        let n = self.0.len();
        let mut out: Vec<Checkpoint> = Vec::new();
        let mut i: usize = 0;
        while i < n && (i == 0 || self.0[i].timestamp < termination_timestamp)
            invariant
                n == s.len(),
                self.0@ == s,
                checkpoints_wf(s),
                i <= n,
                out@ == capped(s.take(i as int), termination_timestamp, vested_balance),
            decreases n - i,
        {
            let c = self.0[i];
            let ts = if c.timestamp <= termination_timestamp {
                c.timestamp
            } else {
                termination_timestamp
            };
            let b = if c.balance <= vested_balance {
                c.balance
            } else {
                vested_balance
            };
            out.push(Checkpoint { timestamp: ts, balance: b });
            i += 1;
            assert(out@ =~= capped(s.take(i as int), termination_timestamp, vested_balance));
        }
        proof {
            let p = s.take(i as int);
            assert forall|j: int| i <= j < s.len() implies #[trigger] s[j].timestamp
                >= termination_timestamp by {
                assert(s[i as int].timestamp <= s[j].timestamp);
            }
            assert forall|x: int, y: int| #![trigger p[x], p[y]]
                0 <= x <= y < p.len() implies p[x].timestamp <= p[y].timestamp && p[x].balance
                    <= p[y].balance by {
                assert(p[x] == s[x] && p[y] == s[y]);
            }
            lemma_terminated_curve(p, termination_timestamp, vested_balance);
            assert forall|t: TimestampSec| t < termination_timestamp implies #[trigger] unlocked_at(
                s,
                t,
            ) == unlocked_at(p, t) by {
                lemma_unlocked_take(s, i as int, t);
            }
        }
        out.push(Checkpoint { timestamp: termination_timestamp, balance: vested_balance });
        self.0 = out;
    }
}

} // verus!
