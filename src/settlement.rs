use vstd::prelude::*;

use crate::contract::Contract;
use crate::lockup::{AccountId, Lockup, LockupError, LockupIndex};
use crate::schedule::{min_balance, Balance, TimestampSec};

verus! {

/// One lockup's share of a claim transfer.
#[derive(Clone, Copy, Debug, PartialEq, Eq, Structural)]
pub struct LockupClaim {
    pub index: LockupIndex,
    pub claim_amount: Balance,
}

/// A claim applied to the lockups, waiting for its transfer of `total` to `account_id`.
#[derive(Debug)]
pub struct ClaimSettlement {
    pub account_id: AccountId,
    pub claims: Vec<LockupClaim>,
    pub total: Balance,
}

/// A termination applied to a lockup; when `unvested_balance` is positive it waits for its
/// transfer to `beneficiary_id`.
#[derive(Debug)]
pub struct TerminationSettlement {
    pub lockup_index: LockupIndex,
    pub termination_timestamp: TimestampSec,
    pub unvested_balance: Balance,
    pub beneficiary_id: AccountId,
}

/// A lockup to claim from, with the amount asked for; `None` asks for all that is unlocked.
pub type ClaimRequest = (LockupIndex, Option<Balance>);

/// What request `e` claims from the lockups `ls` at `now`.
pub open spec fn request_amount(ls: Seq<Lockup>, e: ClaimRequest, now: TimestampSec) -> Balance {
    let unclaimed = ls[e.0 as int].spec_unclaimed(now);
    match e.1 {
        Some(a) => min_balance(a, unclaimed),
        None => unclaimed,
    }
}

/// The claims that the requests `es` make, skipping those that claim nothing.
pub open spec fn planned_claims(ls: Seq<Lockup>, es: Seq<ClaimRequest>, now: TimestampSec) -> Seq<LockupClaim>
    decreases es.len(),
{
    if es.len() == 0 {
        Seq::empty()
    } else {
        let p = planned_claims(ls, es.drop_last(), now);
        let a = request_amount(ls, es.last(), now);
        if a > 0 {
            p.push(LockupClaim { index: es.last().0, claim_amount: a })
        } else {
            p
        }
    }
}

/// Sum of the amounts of `cs`.
pub open spec fn claims_total(cs: Seq<LockupClaim>) -> nat
    decreases cs.len(),
{
    if cs.len() == 0 {
        0
    } else {
        claims_total(cs.drop_last()) + cs.last().claim_amount as nat
    }
}

/// The lockups that the requests `es` name.
pub open spec fn request_ids(es: Seq<ClaimRequest>) -> Seq<LockupIndex> {
    es.map_values(|e: ClaimRequest| e.0)
}

/// No lockup is named twice.
pub open spec fn requests_distinct(es: Seq<ClaimRequest>) -> bool {
    forall|i: int, j: int| 0 <= i < j < es.len() ==> #[trigger] es[i].0 != #[trigger] es[j].0
}

/// The claims name distinct lockups, each of which has claimed at least its amount.
pub open spec fn claims_reversible(ls: Seq<Lockup>, cs: Seq<LockupClaim>) -> bool {
    &&& forall|i: int, j: int| 0 <= i < j < cs.len() ==> #[trigger] cs[i].index != #[trigger] cs[j].index
    &&& forall|m: int|
        0 <= m < cs.len() ==> (#[trigger] cs[m]).index < ls.len() && ls[cs[m].index as int].claimed_balance
            >= cs[m].claim_amount
}

proof fn lemma_planned_step(ls: Seq<Lockup>, es: Seq<ClaimRequest>, k: int, now: TimestampSec)
    requires
        0 <= k < es.len(),
    ensures
        planned_claims(ls, es.take(k + 1), now) == if request_amount(ls, es[k], now) > 0 {
            planned_claims(ls, es.take(k), now).push(
                LockupClaim { index: es[k].0, claim_amount: request_amount(ls, es[k], now) },
            )
        } else {
            planned_claims(ls, es.take(k), now)
        },
        claims_total(planned_claims(ls, es.take(k + 1), now)) == claims_total(planned_claims(ls, es.take(k), now))
            + request_amount(ls, es[k], now),
{
    assert(es.take(k + 1).drop_last() =~= es.take(k));
    let p = planned_claims(ls, es.take(k), now);
    let a = request_amount(ls, es[k], now);
    if a > 0 {
        assert(p.push(LockupClaim { index: es[k].0, claim_amount: a }).drop_last() =~= p);
    }
}

proof fn lemma_planned_total_monotonic(ls: Seq<Lockup>, es: Seq<ClaimRequest>, j: int, k: int, now: TimestampSec)
    requires
        0 <= j <= k <= es.len(),
    ensures
        claims_total(planned_claims(ls, es.take(j), now)) <= claims_total(planned_claims(ls, es.take(k), now)),
    decreases k - j,
{
    if j < k {
        lemma_planned_total_monotonic(ls, es, j, k - 1, now);
        lemma_planned_step(ls, es, k - 1, now);
    }
}

proof fn lemma_planned_members(ls: Seq<Lockup>, es: Seq<ClaimRequest>, now: TimestampSec)
    ensures
        forall|m: int|
            0 <= m < planned_claims(ls, es, now).len() ==> exists|k: int|
                0 <= k < es.len() && es[k].0 == (#[trigger] planned_claims(ls, es, now)[m]).index
                    && planned_claims(ls, es, now)[m].claim_amount == request_amount(ls, es[k], now)
                    && request_amount(ls, es[k], now) > 0,
    decreases es.len(),
{
    if es.len() > 0 {
        let d = es.drop_last();
        lemma_planned_members(ls, d, now);
        let p = planned_claims(ls, d, now);
        let q = planned_claims(ls, es, now);
        assert forall|m: int| 0 <= m < q.len() implies exists|k: int|
            0 <= k < es.len() && es[k].0 == (#[trigger] q[m]).index && q[m].claim_amount == request_amount(
                ls,
                es[k],
                now,
            ) && request_amount(ls, es[k], now) > 0 by {
            if m < p.len() {
                assert(q[m] == p[m]);
                let k = choose|k: int|
                    0 <= k < d.len() && d[k].0 == p[m].index && p[m].claim_amount == request_amount(ls, d[k], now)
                        && request_amount(ls, d[k], now) > 0;
                assert(es[k] == d[k]);
            } else {
                assert(es[es.len() - 1] == es.last());
            }
        }
    }
}

impl Contract {
    /// Why claiming `es` for `caller` at `now` fails, if it does: a lockup that the caller
    /// does not own, a lockup named twice, or a total beyond the balance range.
    pub open spec fn claim_error(&self, caller: Seq<char>, es: Seq<ClaimRequest>, now: TimestampSec) -> Option<
        LockupError,
    > {
        if exists|k: int| 0 <= k < es.len() && !self.store.owned(caller).contains(#[trigger] es[k].0) {
            Some(LockupError::NotFound)
        } else if !requests_distinct(es) {
            Some(LockupError::InvalidState)
        } else if claims_total(planned_claims(self.store.lockups@, es, now)) > u128::MAX {
            Some(LockupError::Overflow)
        } else {
            None
        }
    }

    /// What claiming `es` for `caller` at `now` does, taking `self` to `after` with result `r`.
    pub open spec fn claim_done(
        &self,
        after: Contract,
        caller: Seq<char>,
        es: Seq<ClaimRequest>,
        now: TimestampSec,
        r: Result<ClaimSettlement, LockupError>,
    ) -> bool {
        let ls = self.store.lockups@;
        &&& self.same_config(after)
        &&& after.registry == self.registry
        &&& after.store.account_lockups == self.store.account_lockups
        &&& match r {
            Err(e) => self.claim_error(caller, es, now) == Some(e) && after.store.lockups@ == ls,
            Ok(s) => {
                &&& self.claim_error(caller, es, now) is None
                &&& s.account_id@ == caller
                &&& s.claims@ == planned_claims(ls, es, now)
                &&& s.total == claims_total(s.claims@)
                &&& claims_reversible(after.store.lockups@, s.claims@)
                &&& after.store.lockups@.len() == ls.len()
                &&& forall|k: int|
                    0 <= k < es.len() ==> {
                        let i = (#[trigger] es[k]).0 as int;
                        &&& after.store.lockups@[i].claimed_balance == ls[i].claimed_balance + request_amount(
                            ls,
                            es[k],
                            now,
                        )
                        &&& after.store.lockups@[i].account_id == ls[i].account_id
                        &&& after.store.lockups@[i].schedule == ls[i].schedule
                        &&& after.store.lockups@[i].termination_config == ls[i].termination_config
                    }
                &&& forall|i: int|
                    0 <= i < ls.len() && (forall|k: int| 0 <= k < es.len() ==> #[trigger] es[k].0 as int != i)
                        ==> #[trigger] after.store.lockups@[i] == ls[i]
            },
        }
    }

    /// Claims from the lockups named in `entries`, which `caller` must own, at time `now`;
    /// each claim is capped at what is unlocked and unclaimed. Returns the claims to be paid
    /// out in one transfer; lockups that yield nothing are left out.
    #[verifier::rlimit(60)]
    pub fn claim_entries(&mut self, caller: &AccountId, entries: Vec<ClaimRequest>, now: TimestampSec) -> (r: Result<
        ClaimSettlement,
        LockupError,
    >)
        requires
            old(self).wf(),
        ensures
            final(self).wf(),
            old(self).claim_done(*final(self), caller@, entries@, now, r),
    {
        let ghost es = entries@;
        let ghost ls = self.store.lockups@;
        let n = entries.len();
        let mut ids: Vec<LockupIndex> = Vec::new();
        let mut k: usize = 0;
        while k < n
            invariant
                n == es.len(),
                entries@ == es,
                k <= n,
                ids@.len() == k,
                forall|j: int| 0 <= j < k ==> #[trigger] ids@[j] == es[j].0,
                self.wf(),
                *self == *old(self),
            decreases n - k,
        {
            ids.push(entries[k].0);
            k += 1;
        }
        match self.store.lockups_by_id(caller, &ids) {
            Err(_) => {
                proof {
                    let j = choose|j: int| 0 <= j < ids@.len() && !self.store.owned(caller@).contains(#[trigger] ids@[j]);
                    assert(!self.store.owned(caller@).contains(es[j].0));
                }
                return Err(LockupError::NotFound);
            },
            Ok(_) => {},
        }
        assert forall|j: int| 0 <= j < n implies self.store.owned(caller@).contains(#[trigger] es[j].0) && es[j].0 < ls.len() by {
            assert(ids@[j] == es[j].0);
        }
        let mut i: usize = 0;
        while i < n
            invariant
                n == es.len(),
                entries@ == es,
                i <= n,
                forall|x: int, y: int| 0 <= x < i && x < y < n ==> #[trigger] es[x].0 != #[trigger] es[y].0,
                self.wf(),
                *self == *old(self),
                forall|j: int| 0 <= j < n ==> self.store.owned(caller@).contains(#[trigger] es[j].0) && es[j].0 < ls.len(),
            decreases n - i,
        {
            let mut j: usize = i + 1;
            while j < n
                invariant
                    n == es.len(),
                    entries@ == es,
                    i < n,
                    i + 1 <= j <= n,
                    forall|x: int, y: int| 0 <= x < i && x < y < n ==> #[trigger] es[x].0 != #[trigger] es[y].0,
                    forall|y: int| i < y < j ==> es[i as int].0 != #[trigger] es[y].0,
                    self.wf(),
                    *self == *old(self),
                    forall|j: int| 0 <= j < n ==> self.store.owned(caller@).contains(#[trigger] es[j].0) && es[j].0 < ls.len(),
                decreases n - j,
            {
                if entries[i].0 == entries[j].0 {
                    assert(!requests_distinct(es)) by {
                        assert(es[i as int].0 == es[j as int].0);
                    }
                    return Err(LockupError::InvalidState);
                }
                j += 1;
            }
            i += 1;
        }
        assert(requests_distinct(es));
        let mut total: Balance = 0;
        let mut k: usize = 0;
        while k < n
            invariant
                self.wf(),
                self.store.lockups@ == ls,
                n == es.len(),
                entries@ == es,
                k <= n,
                forall|j: int| 0 <= j < n ==> (#[trigger] es[j]).0 < ls.len(),
                total == claims_total(planned_claims(ls, es.take(k as int), now)),
                *self == *old(self),
                forall|j: int| 0 <= j < n ==> self.store.owned(caller@).contains(#[trigger] es[j].0),
                requests_distinct(es),
            decreases n - k,
        {
            let id = entries[k].0;
            let unclaimed = self.store.lockups[id as usize].unclaimed_balance(now);
            let a = match entries[k].1 {
                Some(req) => if req <= unclaimed {
                    req
                } else {
                    unclaimed
                },
                None => unclaimed,
            };
            proof {
                lemma_planned_step(ls, es, k as int, now);
            }
            if total > u128::MAX - a {
                proof {
                    lemma_planned_total_monotonic(ls, es, k + 1, n as int, now);
                    assert(es.take(n as int) =~= es);
                }
                return Err(LockupError::Overflow);
            }
            total = total + a;
            k += 1;
        }
        assert(es.take(n as int) =~= es);
        let ghost old_self = *self;
        let mut claims: Vec<LockupClaim> = Vec::new();
        let mut sum: Balance = 0;
        let mut k: usize = 0;
        while k < n
            invariant
                self.wf(),
                self.registry == old_self.registry,
                old_self.same_config(*self),
                self.store.account_lockups == old_self.store.account_lockups,
                n == es.len(),
                entries@ == es,
                k <= n,
                requests_distinct(es),
                forall|j: int| 0 <= j < n ==> (#[trigger] es[j]).0 < ls.len(),
                claims_total(planned_claims(ls, es, now)) <= u128::MAX,
                claims@ == planned_claims(ls, es.take(k as int), now),
                sum == claims_total(claims@),
                self.store.lockups@.len() == ls.len(),
                forall|m: int| 0 <= m < claims@.len() ==> exists|j: int| 0 <= j < k && #[trigger] es[j].0 == (#[trigger] claims@[m]).index,
                claims_reversible(self.store.lockups@, claims@),
                forall|j: int|
                    0 <= j < k ==> {
                        let i = (#[trigger] es[j]).0 as int;
                        &&& self.store.lockups@[i].claimed_balance == ls[i].claimed_balance + request_amount(ls, es[j], now)
                        &&& self.store.lockups@[i].account_id == ls[i].account_id
                        &&& self.store.lockups@[i].schedule == ls[i].schedule
                        &&& self.store.lockups@[i].termination_config == ls[i].termination_config
                    },
                forall|i: int|
                    0 <= i < ls.len() && (forall|j: int| 0 <= j < k ==> #[trigger] es[j].0 != i)
                        ==> #[trigger] self.store.lockups@[i] == ls[i],
            decreases n - k,
        {
            let id = entries[k].0;
            let req = match entries[k].1 {
                Some(a) => a,
                None => u128::MAX,
            };
            let ghost before = self.store.lockups@;
            proof {
                assert(forall|j: int| 0 <= j < k ==> #[trigger] es[j].0 != id);
                assert(before[id as int] == ls[id as int]);
                lemma_planned_step(ls, es, k as int, now);
                lemma_planned_total_monotonic(ls, es, k + 1, n as int, now);
                assert(es.take(n as int) =~= es);
            }
            let a = self.store.lockups[id as usize].claim(req, now);
            proof {
                assert(a == request_amount(ls, es[k as int], now));
                let after = self.store.lockups@;
                assert forall|x: int| 0 <= x < after.len() implies #[trigger] after[x].wf() by {
                    if x != id as int {
                        assert(after[x] == before[x]);
                    }
                }
                assert(self.store.wf()) by {
                    let st = self.store;
                    assert forall|e: int|
                        #![trigger st.account_lockups@[e]]
                        0 <= e < st.account_lockups@.len() implies {
                            let en = st.account_lockups@[e];
                            forall|q: int|
                                #![trigger en.lockup_ids@[q]]
                                0 <= q < en.lockup_ids@.len() ==> en.lockup_ids@[q] < after.len()
                                    && after[en.lockup_ids@[q] as int].account_id@ == en.account_id@
                        } by {
                        let en = st.account_lockups@[e];
                        assert forall|q: int| #![trigger en.lockup_ids@[q]] 0 <= q < en.lockup_ids@.len() implies en.lockup_ids@[q]
                            < after.len() && after[en.lockup_ids@[q] as int].account_id@ == en.account_id@ by {
                            assert(old_self.store.account_lockups@[e] == en);
                            assert(after[en.lockup_ids@[q] as int].account_id == before[en.lockup_ids@[q] as int].account_id);
                        }
                    }
                }
            }
            let ghost prev = claims@;
            if a > 0 {
                claims.push(LockupClaim { index: id, claim_amount: a });
                sum = sum + a;
                proof {
                    let cs = claims@;
                    assert(cs.drop_last() =~= planned_claims(ls, es.take(k as int), now));
                }
            }
            k += 1;
            proof {
                let after = self.store.lockups@;
                let cs = claims@;
                assert forall|m: int| 0 <= m < cs.len() implies exists|j: int| 0 <= j < k && #[trigger] es[j].0 == (#[trigger] cs[m]).index by {
                    if m == cs.len() - 1 && a > 0 {
                        assert(es[k - 1].0 == cs[m].index);
                    } else {
                        let j = choose|j: int| 0 <= j < k - 1 && #[trigger] es[j].0 == prev[m].index;
                        assert(es[j].0 == cs[m].index);
                    }
                }
                assert forall|x: int, y: int| 0 <= x < y < cs.len() implies #[trigger] cs[x].index != #[trigger] cs[y].index by {
                    if y == cs.len() - 1 && a > 0 {
                        let j = choose|j: int| 0 <= j < k - 1 && #[trigger] es[j].0 == cs[x].index;
                        assert(es[j].0 != es[k - 1].0);
                    }
                }
                assert forall|m: int| 0 <= m < cs.len() implies (#[trigger] cs[m]).index < after.len()
                    && after[cs[m].index as int].claimed_balance >= cs[m].claim_amount by {
                    if !(m == cs.len() - 1 && a > 0) {
                        let j = choose|j: int| 0 <= j < k - 1 && #[trigger] es[j].0 == cs[m].index;
                        assert(es[j].0 != id);
                        assert(after[cs[m].index as int] == before[cs[m].index as int]);
                    }
                }
                assert forall|j: int| 0 <= j < k implies {
                    let i = (#[trigger] es[j]).0 as int;
                    &&& after[i].claimed_balance == ls[i].claimed_balance + request_amount(ls, es[j], now)
                    &&& after[i].account_id == ls[i].account_id
                    &&& after[i].schedule == ls[i].schedule
                    &&& after[i].termination_config == ls[i].termination_config
                } by {
                    if j < k - 1 {
                        assert(es[j].0 != es[k - 1].0);
                        assert(after[es[j].0 as int] == before[es[j].0 as int]);
                    }
                }
                assert forall|i: int|
                    0 <= i < ls.len() && (forall|j: int| 0 <= j < k ==> #[trigger] es[j].0 != i)
                        implies #[trigger] after[i] == ls[i] by {
                    assert(es[k - 1].0 != i);
                    assert(after[i] == before[i]);
                }
            }
        }
        assert(es.take(n as int) =~= es);
        Ok(ClaimSettlement { account_id: caller.clone(), claims, total: sum })
    }

    /// Claims for `caller` at `now`: from the lockups and amounts in `amounts`, or, when it is
    /// `None`, everything unlocked in every lockup the caller owns.
    pub fn claim(&mut self, caller: &AccountId, amounts: Option<Vec<ClaimRequest>>, now: TimestampSec) -> (r: Result<
        ClaimSettlement,
        LockupError,
    >)
        requires
            old(self).wf(),
        ensures
            final(self).wf(),
            match amounts {
                Some(a) => old(self).claim_done(*final(self), caller@, a@, now, r),
                None => exists|es: Seq<ClaimRequest>|
                    {
                        &&& #[trigger] request_ids(es).to_set() == old(self).store.owned(caller@)
                        &&& forall|k: int| 0 <= k < es.len() ==> (#[trigger] es[k]).1 is None
                        &&& old(self).claim_done(*final(self), caller@, es, now, r)
                    },
            },
            amounts is None ==> (r is Err ==> r == Err::<ClaimSettlement, LockupError>(LockupError::Overflow)),
    {
        match amounts {
            Some(a) => self.claim_entries(caller, a, now),
            None => {
                let ids = self.store.lockups_for(caller);
                let mut es: Vec<ClaimRequest> = Vec::new();
                let mut k: usize = 0;
                while k < ids.len()
                    invariant
                        k <= ids@.len(),
                        es@.len() == k,
                        forall|j: int| 0 <= j < k ==> #[trigger] es@[j] == (ids@[j], None::<Balance>),
                    decreases ids@.len() - k,
                {
                    es.push((ids[k], None));
                    k += 1;
                }
                let ghost esv = es@;
                proof {
                    assert(request_ids(esv) =~= ids@);
                    assert(requests_distinct(esv)) by {
                        assert forall|i: int, j: int| 0 <= i < j < esv.len() implies #[trigger] esv[i].0 != #[trigger] esv[j].0 by {
                            assert(esv[i].0 == ids@[i] && esv[j].0 == ids@[j]);
                        }
                    }
                    assert forall|j: int| 0 <= j < esv.len() implies self.store.owned(caller@).contains(#[trigger] esv[j].0) by {
                        assert(esv[j].0 == ids@[j]);
                        assert(ids@.contains(ids@[j]));
                    }
                }
                let r = self.claim_entries(caller, es, now);
                proof {
                    assert(forall|k: int| 0 <= k < esv.len() ==> (#[trigger] esv[k]).1 is None);
                }
                r
            },
        }
    }

    /// Settles a claim once its transfer has reported: on success nothing changes and the
    /// total is returned; on failure every lockup's claim is given back and zero is returned.
    pub fn after_ft_transfer(&mut self, settlement: &ClaimSettlement, success: bool) -> (r: Balance)
        requires
            old(self).wf(),
        ensures
            final(self).wf(),
            old(self).same_config(*final(self)),
            final(self).registry == old(self).registry,
            final(self).store.account_lockups == old(self).store.account_lockups,
            final(self).store.lockups@.len() == old(self).store.lockups@.len(),
            success ==> r == settlement.total && final(self).store.lockups@ == old(self).store.lockups@,
            !success ==> r == 0,
            !success && claims_reversible(old(self).store.lockups@, settlement.claims@) ==> {
                let ls = old(self).store.lockups@;
                let cs = settlement.claims@;
                &&& forall|m: int|
                    0 <= m < cs.len() ==> {
                        let i = (#[trigger] cs[m]).index as int;
                        &&& final(self).store.lockups@[i].claimed_balance == ls[i].claimed_balance - cs[m].claim_amount
                        &&& final(self).store.lockups@[i].account_id == ls[i].account_id
                        &&& final(self).store.lockups@[i].schedule == ls[i].schedule
                        &&& final(self).store.lockups@[i].termination_config == ls[i].termination_config
                    }
                &&& forall|i: int|
                    0 <= i < ls.len() && (forall|m: int| 0 <= m < cs.len() ==> #[trigger] cs[m].index as int != i)
                        ==> #[trigger] final(self).store.lockups@[i] == ls[i]
            },
    {
        if success {
            return settlement.total;
        }
        let ghost ls = self.store.lockups@;
        let ghost cs = settlement.claims@;
        let ghost old_self = *self;
        let n = settlement.claims.len();
        let mut m: usize = 0;
        while m < n
            invariant
                self.wf(),
                self.registry == old_self.registry,
                old_self.same_config(*self),
                self.store.account_lockups == old_self.store.account_lockups,
                self.store.lockups@.len() == ls.len(),
                n == cs.len(),
                settlement.claims@ == cs,
                m <= n,
                claims_reversible(ls, cs) ==> forall|x: int|
                    0 <= x < m ==> {
                        let i = (#[trigger] cs[x]).index as int;
                        &&& self.store.lockups@[i].claimed_balance == ls[i].claimed_balance - cs[x].claim_amount
                        &&& self.store.lockups@[i].account_id == ls[i].account_id
                        &&& self.store.lockups@[i].schedule == ls[i].schedule
                        &&& self.store.lockups@[i].termination_config == ls[i].termination_config
                    },
                claims_reversible(ls, cs) ==> forall|i: int|
                    0 <= i < ls.len() && (forall|x: int| 0 <= x < m ==> #[trigger] cs[x].index as int != i)
                        ==> #[trigger] self.store.lockups@[i] == ls[i],
            decreases n - m,
        {
            let c = settlement.claims[m];
            let i = c.index as usize;
            let ghost before = self.store.lockups@;
            if i < self.store.lockups.len() && c.claim_amount <= self.store.lockups[i].claimed_balance {
                self.store.lockups[i].unclaim(c.claim_amount);
                proof {
                    let after = self.store.lockups@;
                    assert forall|x: int| 0 <= x < after.len() implies #[trigger] after[x].wf() by {
                        if x != i as int {
                            assert(after[x] == before[x]);
                        }
                    }
                    let st = self.store;
                    assert forall|e: int|
                        #![trigger st.account_lockups@[e]]
                        0 <= e < st.account_lockups@.len() implies {
                            let en = st.account_lockups@[e];
                            forall|q: int|
                                #![trigger en.lockup_ids@[q]]
                                0 <= q < en.lockup_ids@.len() ==> en.lockup_ids@[q] < after.len()
                                    && after[en.lockup_ids@[q] as int].account_id@ == en.account_id@
                        } by {
                        let en = st.account_lockups@[e];
                        assert forall|q: int| #![trigger en.lockup_ids@[q]] 0 <= q < en.lockup_ids@.len() implies en.lockup_ids@[q]
                            < after.len() && after[en.lockup_ids@[q] as int].account_id@ == en.account_id@ by {
                            assert(after[en.lockup_ids@[q] as int].account_id == before[en.lockup_ids@[q] as int].account_id);
                        }
                    }
                    assert(self.store.wf());
                }
            }
            m += 1;
            proof {
                if claims_reversible(ls, cs) {
                    let after = self.store.lockups@;
                    assert(forall|x: int| 0 <= x < m - 1 ==> #[trigger] cs[x].index != cs[m - 1].index);
                    assert(before[i as int] == ls[i as int]);
                    assert forall|x: int| 0 <= x < m implies {
                        let j = (#[trigger] cs[x]).index as int;
                        &&& after[j].claimed_balance == ls[j].claimed_balance - cs[x].claim_amount
                        &&& after[j].account_id == ls[j].account_id
                        &&& after[j].schedule == ls[j].schedule
                        &&& after[j].termination_config == ls[j].termination_config
                    } by {
                        if x < m - 1 {
                            assert(cs[x].index != cs[m - 1].index);
                            assert(after[cs[x].index as int] == before[cs[x].index as int]);
                        }
                    }
                    assert forall|j: int|
                        0 <= j < ls.len() && (forall|x: int| 0 <= x < m ==> #[trigger] cs[x].index as int != j)
                            implies #[trigger] after[j] == ls[j] by {
                        assert(cs[m - 1].index as int != j);
                        assert(after[j] == before[j]);
                    }
                }
            }
        }
        0
    }

    /// Terminates lockup `lockup_index` at `termination_timestamp` (default: `now`), at time
    /// `now`; a lockup left with nothing to unlock leaves its owner's index. Deposit whitelist
    /// only.
    pub fn terminate(
        &mut self,
        caller: &AccountId,
        lockup_index: LockupIndex,
        termination_timestamp: Option<TimestampSec>,
        now: TimestampSec,
    ) -> (r: Result<TerminationSettlement, LockupError>)
        requires
            old(self).wf(),
        ensures
            final(self).wf(),
            old(self).same_config(*final(self)),
            final(self).registry == old(self).registry,
            r is Err ==> final(self).store.lockups@ == old(self).store.lockups@ && final(self).store.account_lockups
                == old(self).store.account_lockups,
            !old(self).is_depositor(caller@) ==> r == Err::<TerminationSettlement, LockupError>(
                LockupError::Unauthorized),
            old(self).is_depositor(caller@) && lockup_index >= old(self).store.len() ==> r == Err::<
                TerminationSettlement,
                LockupError,
            >(LockupError::NotFound),
            old(self).is_depositor(caller@) && lockup_index < old(self).store.len() ==> {
                let t = match termination_timestamp {
                    Some(t) => t,
                    None => now,
                };
                let i = lockup_index as int;
                let l = old(self).store.lockups@[i];
                let nl = final(self).store.lockups@[i];
                match r {
                    Err(e) => l.terminate_error(now, t) == Some(e),
                    Ok(s) => {
                        &&& l.terminate_error(now, t) is None
                        &&& s.lockup_index == lockup_index
                        &&& s.termination_timestamp == t
                        &&& s.unvested_balance == l.schedule.spec_total() - l.spec_vested(t)
                        &&& s.beneficiary_id@ == l.termination_config->0.beneficiary_id@
                        &&& final(self).store.lockups@.len() == old(self).store.lockups@.len()
                        &&& forall|j: int| 0 <= j < old(self).store.lockups@.len() && j != i
                            ==> #[trigger] final(self).store.lockups@[j] == old(self).store.lockups@[j]
                        &&& nl.termination_config is None
                        &&& nl.account_id == l.account_id
                        &&& nl.claimed_balance == l.claimed_balance
                        &&& nl.schedule.spec_total() == l.spec_vested(t)
                        &&& s.unvested_balance == 0 ==> nl.schedule == l.schedule
                        &&& s.unvested_balance > 0 ==> (forall|t1: TimestampSec| t1 >= t
                            ==> #[trigger] nl.schedule.spec_unlocked(t1) == l.spec_vested(t))
                        &&& s.unvested_balance > 0 ==> (forall|t1: TimestampSec| t1 < t
                            ==> #[trigger] nl.schedule.spec_unlocked(t1) == min_balance(l.schedule.spec_unlocked(t1),
                            l.spec_vested(t)))
                        &&& nl.schedule.spec_total() == 0 ==> (forall|acc: Seq<char>| #[trigger] final(self).store.owned(acc)
                            == old(self).store.owned(acc).remove(lockup_index))
                        &&& nl.schedule.spec_total() > 0 ==> final(self).store.account_lockups
                            == old(self).store.account_lockups
                    },
                }
            },
    {
        self.assert_deposit_whitelist(caller)?;
        let i = lockup_index as usize;
        if i >= self.store.lockups.len() {
            return Err(LockupError::NotFound);
        }
        let t = match termination_timestamp {
            Some(t) => t,
            None => now,
        };
        let ghost before = self.store.lockups@;
        let res = self.store.lockups[i].terminate(now, t);
        proof {
            let after = self.store.lockups@;
            assert forall|x: int| 0 <= x < after.len() implies #[trigger] after[x].wf() by {
                if x != i as int {
                    assert(after[x] == before[x]);
                }
            }
            let st = self.store;
            assert forall|e: int|
                #![trigger st.account_lockups@[e]]
                0 <= e < st.account_lockups@.len() implies {
                    let en = st.account_lockups@[e];
                    forall|q: int|
                        #![trigger en.lockup_ids@[q]]
                        0 <= q < en.lockup_ids@.len() ==> en.lockup_ids@[q] < after.len()
                            && after[en.lockup_ids@[q] as int].account_id@ == en.account_id@
                } by {
                let en = st.account_lockups@[e];
                assert forall|q: int| #![trigger en.lockup_ids@[q]] 0 <= q < en.lockup_ids@.len() implies en.lockup_ids@[q]
                    < after.len() && after[en.lockup_ids@[q] as int].account_id@ == en.account_id@ by {
                    if en.lockup_ids@[q] as int == i as int {
                        assert(res is Err ==> after[i as int] == before[i as int]);
                    } else {
                        assert(after[en.lockup_ids@[q] as int] == before[en.lockup_ids@[q] as int]);
                    }
                }
            }
            assert(self.store.wf());
        }
        match res {
            Err(e) => {
                assert(self.store.lockups@ =~= before);
                Err(e)
            },
            Ok((unvested, beneficiary)) => {
                if self.store.lockups[i].schedule.total_balance() == 0 {
                    self.store.remove_from_index(lockup_index);
                }
                Ok(
                    TerminationSettlement {
                        lockup_index,
                        termination_timestamp: t,
                        unvested_balance: unvested,
                        beneficiary_id: beneficiary,
                    },
                )
            },
        }
    }
}

} // verus!
