use vstd::prelude::*;

use crate::draft::{
    batch_total, deleted_from, drafts_total, ids_total, Draft, DraftGroupIndex, DraftGroupState, DraftIndex, DraftRegistry,
};
use crate::lockup::{AccountId, Lockup, LockupError, LockupIndex, TerminationConfig};
use crate::schedule::{min_balance, Balance, TimestampSec};
use crate::store::LockupStore;

verus! {

/// The whole state of the lockup service: committed lockups with their account index,
/// staged drafts, and the two whitelists.
#[derive(Debug)]
pub struct Contract {
    pub token_account_id: AccountId,
    pub store: LockupStore,
    pub registry: DraftRegistry,
    /// Accounts that may do everything: manage both whitelists, drafts and draft groups,
    /// fund draft groups and terminate lockups.
    pub deposit_whitelist: Vec<AccountId>,
    /// Accounts that may manage drafts and draft groups.
    pub draft_operators_whitelist: Vec<AccountId>,
    /// The account allowed to update the code.
    pub manager: AccountId,
}

/// Is `acc` one of `list`?
pub open spec fn listed(list: Seq<AccountId>, acc: Seq<char>) -> bool {
    exists|i: int| 0 <= i < list.len() && #[trigger] list[i]@ == acc
}

/// Sum of the grant sizes of the lockups `ls`.
pub open spec fn lockups_total(ls: Seq<Lockup>) -> nat
    decreases ls.len(),
{
    if ls.len() == 0 {
        0
    } else {
        lockups_total(ls.drop_last()) + ls.last().schedule.spec_total() as nat
    }
}

/// The lockup a draft becomes once funded by `payer`.
pub open spec fn converted(d: Draft, payer: Seq<char>, l: Lockup) -> bool {
    &&& l.account_id@ == d.account_id@
    &&& l.schedule == d.schedule
    &&& l.claimed_balance == 0
    &&& match d.vesting_schedule {
        None => l.termination_config is None,
        Some(v) => l.termination_config matches Some(c) && c.beneficiary_id@ == payer && c.vesting_schedule
            == v,
    }
}

/// Converting drafts into lockups with the same schedules keeps the sum of grant sizes.
pub proof fn lemma_conversion_keeps_total(ds: Seq<Draft>, ls: Seq<Lockup>)
    requires
        ds.len() == ls.len(),
        forall|k: int| 0 <= k < ds.len() ==> (#[trigger] ls[k]).schedule == ds[k].schedule,
    ensures
        lockups_total(ls) == drafts_total(ds),
    decreases ds.len(),
{
    if ds.len() > 0 {
        lemma_conversion_keeps_total(ds.drop_last(), ls.drop_last());
        assert(ls[ls.len() - 1].schedule == ds[ds.len() - 1].schedule);
    }
}

/// The lockup that draft `d` becomes once `payer` has funded it.
fn lockup_from_draft(d: Draft, payer: &AccountId) -> (l: Lockup)
    requires
        d.schedule.wf(),
    ensures
        converted(d, payer@, l),
        l.wf(),
{
    let termination_config = match d.vesting_schedule {
        Some(v) => Some(TerminationConfig { beneficiary_id: payer.clone(), vesting_schedule: v }),
        None => None,
    };
    Lockup {
        account_id: d.account_id,
        schedule: d.schedule,
        claimed_balance: 0,
        termination_config,
    }
}

/// Is `acc` in `list`?
fn contains_account(list: &Vec<AccountId>, acc: &AccountId) -> (r: bool)
    ensures
        r == listed(list@, acc@),
{
    let mut i: usize = 0;
    while i < list.len()
        invariant
            i <= list@.len(),
            forall|j: int| 0 <= j < i ==> #[trigger] list@[j]@ != acc@,
        decreases list@.len() - i,
    {
        if list[i] == *acc {
            return true;
        }
        i += 1;
    }
    false
}

/// Appends to `list` each account of `added` that it lacks.
fn add_accounts(list: &mut Vec<AccountId>, added: Vec<AccountId>)
    ensures
        forall|acc: Seq<char>| #[trigger] listed(final(list)@, acc) == (listed(old(list)@, acc) || listed(added@, acc)),
{
    let mut i: usize = 0;
    while i < added.len()
        invariant
            i <= added@.len(),
            forall|acc: Seq<char>| #[trigger] listed(list@, acc) == (listed(old(list)@, acc) || exists|j: int|
                0 <= j < i && #[trigger] added@[j]@ == acc),
        decreases added@.len() - i,
    {
        let ghost prev = list@;
        if !contains_account(list, &added[i]) {
            list.push(added[i].clone());
            proof {
                assert forall|acc: Seq<char>| #[trigger] listed(list@, acc) == (listed(prev, acc) || added@[i as int]@ == acc) by {
                    if listed(prev, acc) {
                        let k = choose|k: int| 0 <= k < prev.len() && #[trigger] prev[k]@ == acc;
                        assert(list@[k] == prev[k]);
                    }
                    if added@[i as int]@ == acc {
                        assert(list@[prev.len() as int]@ == acc);
                    }
                    if listed(list@, acc) {
                        let k = choose|k: int| 0 <= k < list@.len() && #[trigger] list@[k]@ == acc;
                        if k < prev.len() {
                            assert(prev[k] == list@[k]);
                        }
                    }
                }
            }
        }
        i += 1;
        proof {
            assert forall|acc: Seq<char>| #[trigger] listed(list@, acc) == (listed(old(list)@, acc) || exists|j: int|
                0 <= j < i && #[trigger] added@[j]@ == acc) by {
                if added@[i - 1]@ == acc {
                    assert(listed(list@, acc));
                }
            }
        }
    }
    assert forall|acc: Seq<char>| #[trigger] listed(added@, acc) == exists|j: int| 0 <= j < added@.len() && #[trigger] added@[j]@ == acc by {}
}

/// The accounts of `list` that are not in `removed`, in order.
fn without_accounts(list: &Vec<AccountId>, removed: &Vec<AccountId>) -> (r: Vec<AccountId>)
    ensures
        forall|acc: Seq<char>| #[trigger] listed(r@, acc) == (listed(list@, acc) && !listed(removed@, acc)),
{
    let mut r: Vec<AccountId> = Vec::new();
    let mut i: usize = 0;
    while i < list.len()
        invariant
            i <= list@.len(),
            forall|acc: Seq<char>| #[trigger] listed(r@, acc) == ((exists|j: int| 0 <= j < i && #[trigger] list@[j]@ == acc)
                && !listed(removed@, acc)),
        decreases list@.len() - i,
    {
        let ghost prev = r@;
        if !contains_account(removed, &list[i]) {
            r.push(list[i].clone());
        }
        i += 1;
        proof {
            assert forall|acc: Seq<char>| #[trigger] listed(r@, acc) == ((exists|j: int| 0 <= j < i && #[trigger] list@[j]@ == acc)
                && !listed(removed@, acc)) by {
                if listed(r@, acc) {
                    let k = choose|k: int| 0 <= k < r@.len() && #[trigger] r@[k]@ == acc;
                    if k < prev.len() {
                        assert(prev[k] == r@[k]);
                        assert(listed(prev, acc));
                    }
                }
                if listed(prev, acc) {
                    let k = choose|k: int| 0 <= k < prev.len() && #[trigger] prev[k]@ == acc;
                    assert(r@[k] == prev[k]);
                }
                if list@[i - 1]@ == acc && !listed(removed@, acc) {
                    assert(r@[r@.len() - 1]@ == acc);
                }
            }
        }
    }
    r
}

impl Contract {
    /// The token, the manager and both whitelists are the same in `self` and `other`.
    pub open spec fn same_config(&self, other: Contract) -> bool {
        &&& other.token_account_id == self.token_account_id
        &&& other.manager == self.manager
        &&& other.deposit_whitelist == self.deposit_whitelist
        &&& other.draft_operators_whitelist == self.draft_operators_whitelist
    }

    pub open spec fn wf(&self) -> bool {
        &&& self.store.wf()
        &&& self.registry.wf()
    }

    pub open spec fn is_depositor(&self, acc: Seq<char>) -> bool {
        listed(self.deposit_whitelist@, acc)
    }

    pub open spec fn is_draft_operator(&self, acc: Seq<char>) -> bool {
        self.is_depositor(acc) || listed(self.draft_operators_whitelist@, acc)
    }

    /// A fresh state with the given whitelists and no lockups or drafts.
    pub fn new(
        token_account_id: AccountId,
        deposit_whitelist: Vec<AccountId>,
        draft_operators_whitelist: Option<Vec<AccountId>>,
        manager: AccountId,
    ) -> (r: Contract)
        ensures
            r.wf(),
            r.token_account_id == token_account_id,
            r.manager == manager,
            r.store.len() == 0,
            r.registry.drafts@.len() == 0,
            r.registry.draft_groups@.len() == 0,
            r.deposit_whitelist@ == deposit_whitelist@,
            r.draft_operators_whitelist@ == match draft_operators_whitelist {
                Some(v) => v@,
                None => Seq::<AccountId>::empty(),
            },
    {
        let operators = match draft_operators_whitelist {
            Some(v) => v,
            None => Vec::new(),
        };
        Contract {
            token_account_id,
            store: LockupStore::new(),
            registry: DraftRegistry::new(),
            deposit_whitelist,
            draft_operators_whitelist: operators,
            manager,
        }
    }

    /// Refuses a caller outside the deposit whitelist.
    pub fn assert_deposit_whitelist(&self, account_id: &AccountId) -> (r: Result<(), LockupError>)
        ensures
            r is Ok <==> self.is_depositor(account_id@),
            r is Err ==> r == Err::<(), LockupError>(LockupError::Unauthorized),
    {
        if contains_account(&self.deposit_whitelist, account_id) {
            Ok(())
        } else {
            Err(LockupError::Unauthorized)
        }
    }

    /// Refuses a caller that is in neither whitelist.
    pub fn assert_draft_operators_whitelist(&self, account_id: &AccountId) -> (r: Result<(), LockupError>)
        ensures
            r is Ok <==> self.is_draft_operator(account_id@),
            r is Err ==> r == Err::<(), LockupError>(LockupError::Unauthorized),
    {
        if contains_account(&self.deposit_whitelist, account_id) || contains_account(
            &self.draft_operators_whitelist,
            account_id,
        ) {
            Ok(())
        } else {
            Err(LockupError::Unauthorized)
        }
    }

    /// Appends `lockup` to the store and indexes it under its owner.
    pub fn internal_add_lockup(&mut self, lockup: Lockup) -> (r: Result<LockupIndex, LockupError>)
        requires
            old(self).wf(),
            lockup.wf(),
        ensures
            final(self).wf(),
            old(self).same_config(*final(self)),
            final(self).registry == old(self).registry,
            match r {
                Ok(i) => {
                    &&& i == old(self).store.len()
                    &&& final(self).store.lockups@ == old(self).store.lockups@.push(lockup)
                    &&& forall|acc: Seq<char>|
                        #[trigger] final(self).store.owned(acc) == if acc == lockup.account_id@ {
                            old(self).store.owned(acc).insert(i)
                        } else {
                            old(self).store.owned(acc)
                        }
                },
                Err(e) => e == LockupError::Overflow && old(self).store.len() == u32::MAX
                    && final(self).store == old(self).store,
            },
    {
        self.store.add(lockup)
    }

    /// Opens a new pending draft group; draft operators only.
    pub fn create_draft_group(&mut self, caller: &AccountId) -> (r: Result<DraftGroupIndex, LockupError>)
        requires
            old(self).wf(),
        ensures
            final(self).wf(),
            old(self).same_config(*final(self)),
            final(self).store == old(self).store,
            !old(self).is_draft_operator(caller@) ==> r == Err::<DraftGroupIndex, LockupError>(
                LockupError::Unauthorized) && final(self).registry == old(self).registry,
            old(self).is_draft_operator(caller@) ==> match r {
                Ok(g) => {
                    &&& g == old(self).registry.draft_groups@.len()
                    &&& final(self).registry.draft_groups@.len() == g + 1
                    &&& final(self).registry.drafts@ == old(self).registry.drafts@
                    &&& forall|h: DraftGroupIndex| h != g ==> #[trigger] final(self).registry.group(h)
                        == old(self).registry.group(h)
                    &&& (final(self).registry.group(g) matches Some(grp) && grp.total_amount == 0
                        && grp.draft_indices@.len() == 0 && grp.state == DraftGroupState::Pending)
                },
                Err(e) => e == LockupError::Overflow && old(self).registry.draft_groups@.len() == u32::MAX
                    && final(self).registry == old(self).registry,
            },
    {
        self.assert_draft_operators_whitelist(caller)?;
        self.registry.create_draft_group()
    }

    /// Stages a batch of drafts, all or none; draft operators only.
    pub fn create_drafts(&mut self, caller: &AccountId, drafts: Vec<Draft>) -> (r: Result<
        Vec<DraftIndex>,
        LockupError,
    >)
        requires
            old(self).wf(),
        ensures
            final(self).wf(),
            old(self).same_config(*final(self)),
            final(self).store == old(self).store,
            !old(self).is_draft_operator(caller@) ==> r == Err::<Vec<DraftIndex>, LockupError>(
                LockupError::Unauthorized) && final(self).registry == old(self).registry,
            old(self).is_draft_operator(caller@) ==> match r {
                Err(e) => old(self).registry.create_error(drafts@) == Some(e) && final(self).registry.drafts@
                    == old(self).registry.drafts@ && final(self).registry.draft_groups@
                    == old(self).registry.draft_groups@,
                Ok(ids) => {
                    &&& old(self).registry.create_error(drafts@) is None
                    &&& ids@.len() == drafts@.len()
                    &&& forall|k: int| 0 <= k < ids@.len() ==> #[trigger] ids@[k] == old(self).registry.drafts@.len() + k
                    &&& forall|k: int| 0 <= k < drafts@.len()
                        ==> #[trigger] final(self).registry.drafts@[old(self).registry.drafts@.len() + k] == Some(drafts@[k])
                    &&& final(self).registry.drafts@.len() == old(self).registry.drafts@.len() + drafts@.len()
                    &&& forall|i: int| 0 <= i < old(self).registry.drafts@.len() ==> #[trigger] final(self).registry.drafts@[i]
                        == old(self).registry.drafts@[i]
                    &&& final(self).registry.draft_groups@.len() == old(self).registry.draft_groups@.len()
                    &&& forall|h: DraftGroupIndex| #[trigger] old(self).registry.group(h) matches Some(og)
                        ==> (final(self).registry.group(h) matches Some(ng) && ng.state == og.state
                        && ng.total_amount == og.total_amount + batch_total(drafts@, h, drafts@.len() as int))
                    &&& forall|h: DraftGroupIndex| #[trigger] old(self).registry.group(h) is None
                        ==> final(self).registry.group(h) is None
                },
            },
    {
        self.assert_draft_operators_whitelist(caller)?;
        self.registry.create_drafts(drafts)
    }

    /// Stages one draft; draft operators only.
    pub fn create_draft(&mut self, caller: &AccountId, draft: Draft) -> (r: Result<DraftIndex, LockupError>)
        requires
            old(self).wf(),
        ensures
            final(self).wf(),
            old(self).same_config(*final(self)),
            final(self).store == old(self).store,
            !old(self).is_draft_operator(caller@) ==> r == Err::<DraftIndex, LockupError>(
                LockupError::Unauthorized),
            old(self).is_draft_operator(caller@) ==> match r {
                Err(e) => old(self).registry.create_error(seq![draft]) == Some(e) && final(self).registry.drafts@
                    == old(self).registry.drafts@ && final(self).registry.draft_groups@
                    == old(self).registry.draft_groups@,
                Ok(id) => {
                    &&& old(self).registry.create_error(seq![draft]) is None
                    &&& id == old(self).registry.drafts@.len()
                    &&& final(self).registry.drafts@[id as int] == Some(draft)
                },
            },
    {
        let ghost dv = draft;
        let mut batch: Vec<Draft> = Vec::new();
        batch.push(draft);
        assert(batch@ =~= seq![dv]);
        let ids = self.create_drafts(caller, batch)?;
        assert(ids@.len() == 1);
        Ok(ids[0])
    }

    /// Discards a draft group that has not been funded; draft operators only.
    pub fn discard_draft_group(&mut self, caller: &AccountId, draft_group_id: DraftGroupIndex) -> (r: Result<
        (),
        LockupError,
    >)
        requires
            old(self).wf(),
        ensures
            final(self).wf(),
            old(self).same_config(*final(self)),
            final(self).store == old(self).store,
            final(self).registry.drafts@ == old(self).registry.drafts@,
            !old(self).is_draft_operator(caller@) ==> r == Err::<(), LockupError>(LockupError::Unauthorized)
                && final(self).registry == old(self).registry,
            old(self).is_draft_operator(caller@) ==> match old(self).registry.group(draft_group_id) {
                None => r == Err::<(), LockupError>(LockupError::NotFound) && final(self).registry.draft_groups@
                    == old(self).registry.draft_groups@,
                Some(grp) => if grp.state == DraftGroupState::Funded {
                    r == Err::<(), LockupError>(LockupError::InvalidState) && final(self).registry.draft_groups@
                        == old(self).registry.draft_groups@
                } else {
                    &&& r is Ok
                    &&& forall|h: DraftGroupIndex| h != draft_group_id ==> #[trigger] final(self).registry.group(h)
                        == old(self).registry.group(h)
                    &&& grp.draft_indices@.len() == 0 ==> final(self).registry.group(draft_group_id) is None
                    &&& grp.draft_indices@.len() > 0 ==> (final(self).registry.group(draft_group_id) matches Some(ng)
                        && ng.state == DraftGroupState::Discarded && ng.total_amount == grp.total_amount
                        && ng.draft_indices@ == grp.draft_indices@)
                },
            },
    {
        self.assert_draft_operators_whitelist(caller)?;
        self.registry.discard_draft_group(draft_group_id)
    }

    /// Deletes drafts of discarded groups, all or none. Needs no whitelist: the discard that
    /// must come first was authorized.
    pub fn delete_drafts(&mut self, draft_ids: Vec<DraftIndex>) -> (r: Result<(), LockupError>)
        requires
            old(self).wf(),
        ensures
            final(self).wf(),
            old(self).same_config(*final(self)),
            final(self).store == old(self).store,
            match r {
                Err(e) => old(self).registry.first_delete_error(draft_ids@, 0) == Some(e) && final(self).registry.drafts@
                    == old(self).registry.drafts@ && final(self).registry.draft_groups@
                    == old(self).registry.draft_groups@,
                Ok(_) => {
                    &&& old(self).registry.first_delete_error(draft_ids@, 0) is None
                    &&& final(self).registry.drafts@.len() == old(self).registry.drafts@.len()
                    &&& forall|i: int| 0 <= i < final(self).registry.drafts@.len() ==> #[trigger] final(self).registry.drafts@[i]
                        == if draft_ids@.contains(i as DraftIndex) { None } else { old(self).registry.drafts@[i] }
                    &&& forall|h: DraftGroupIndex| #[trigger] old(self).registry.group(h) matches Some(og) ==> deleted_from(
                        og, final(self).registry.group(h), draft_ids@.to_set())
                    &&& forall|h: DraftGroupIndex| #[trigger] old(self).registry.group(h) matches Some(og)
                        ==> (final(self).registry.group(h) matches Some(ng) ==> ng.total_amount == ids_total(
                        ng.draft_indices@, old(self).registry.drafts@))
                    &&& forall|h: DraftGroupIndex| #[trigger] old(self).registry.group(h) is None
                        ==> final(self).registry.group(h) is None
                },
            },
    {
        self.registry.delete_drafts(draft_ids)
    }

    /// Funds pending draft group `draft_group_id` with `amount`, which must equal its total,
    /// and converts every draft of it into a lockup whose termination pays back to `caller`;
    /// the group and its drafts are then removed. Deposit whitelist only.
    pub fn fund_draft_group(&mut self, caller: &AccountId, draft_group_id: DraftGroupIndex, amount: Balance) -> (r:
        Result<Vec<LockupIndex>, LockupError>)
        requires
            old(self).wf(),
        ensures
            final(self).wf(),
            old(self).same_config(*final(self)),
            r is Err ==> final(self).store == old(self).store && final(self).registry == old(self).registry,
            !old(self).is_depositor(caller@) ==> r == Err::<Vec<LockupIndex>, LockupError>(LockupError::Unauthorized),
            old(self).is_depositor(caller@) ==> match old(self).registry.group(draft_group_id) {
                None => r == Err::<Vec<LockupIndex>, LockupError>(LockupError::NotFound),
                Some(grp) => if grp.state != DraftGroupState::Pending || grp.total_amount != amount {
                    r == Err::<Vec<LockupIndex>, LockupError>(LockupError::InvalidState)
                } else if old(self).store.len() + grp.draft_indices@.len() > u32::MAX {
                    r == Err::<Vec<LockupIndex>, LockupError>(LockupError::Overflow)
                } else {
                    r matches Ok(ids) && {
                        let base = old(self).store.len() as int;
                        let n = grp.draft_indices@.len() as int;
                        &&& ids@.len() == n
                        &&& forall|k: int| 0 <= k < n ==> #[trigger] ids@[k] == base + k
                        &&& final(self).store.lockups@.len() == base + n
                        &&& forall|i: int| 0 <= i < base ==> #[trigger] final(self).store.lockups@[i]
                            == old(self).store.lockups@[i]
                        &&& forall|k: int| 0 <= k < n ==> converted(
                            old(self).registry.drafts@[grp.draft_indices@[k] as int]->0,
                            caller@,
                            #[trigger] final(self).store.lockups@[base + k],
                        )
                        &&& lockups_total(final(self).store.lockups@.subrange(base, base + n)) == amount
                        &&& final(self).registry.group(draft_group_id) is None
                    }
                },
            },
    {
        self.assert_deposit_whitelist(caller)?;
        let gi = draft_group_id as usize;
        if gi >= self.registry.draft_groups.len() {
            return Err(LockupError::NotFound);
        }
        let n = match &self.registry.draft_groups[gi] {
            None => {
                return Err(LockupError::NotFound);
            },
            Some(grp) => {
                if grp.state != DraftGroupState::Pending || grp.total_amount != amount {
                    return Err(LockupError::InvalidState);
                }
                grp.draft_indices.len()
            },
        };
        if n > 4294967295usize || self.store.lockups.len() > 4294967295usize - n {
            return Err(LockupError::Overflow);
        }
        let ghost old_self = *self;
        let ghost base = self.store.len() as int;
        let mut drafts = self.registry.take_group_drafts(draft_group_id);
        let ghost ds = drafts@;
        let ghost reg_after = self.registry;
        let mut ids: Vec<LockupIndex> = Vec::new();
        let mut k: usize = 0;
        while drafts.len() > 0
            invariant
                self.wf(),
                n == ds.len(),
                k <= n,
                drafts@ == ds.subrange(k as int, n as int),
                0 <= base,
                base + n <= u32::MAX,
                self.store.lockups@.len() == base + k,
                ids@.len() == k,
                forall|j: int| 0 <= j < k ==> #[trigger] ids@[j] == base + j,
                forall|i: int| 0 <= i < base ==> #[trigger] self.store.lockups@[i] == old_self.store.lockups@[i],
                forall|j: int| 0 <= j < k ==> converted(ds[j], caller@, #[trigger] self.store.lockups@[base + j]),
                forall|j: int| 0 <= j < n ==> (#[trigger] ds[j]).schedule.wf(),
                self.registry == reg_after,
                old_self.same_config(*self),
            decreases n - k,
        {
            let d = drafts.remove(0);
            assert(d == ds[k as int]);
            let lockup = lockup_from_draft(d, caller);
            let ghost lv = lockup;
            let ghost before = self.store.lockups@;
            let index = match self.store.add(lockup) {
                Ok(i) => i,
                Err(_) => {
                    assert(false);
                    return Err(LockupError::Overflow);
                },
            };
            ids.push(index);
            k += 1;
            proof {
                assert(drafts@ =~= ds.subrange(k as int, n as int));
                assert forall|j: int| 0 <= j < k implies converted(ds[j], caller@, #[trigger] self.store.lockups@[base + j]) by {
                    if j < k - 1 {
                        assert(self.store.lockups@[base + j] == before[base + j]);
                    } else {
                        assert(self.store.lockups@[base + j] == lv);
                    }
                }
            }
        }
        proof {
            let ls = self.store.lockups@.subrange(base, base + n);
            assert forall|j: int| 0 <= j < n implies (#[trigger] ls[j]).schedule == ds[j].schedule by {
                assert(ls[j] == self.store.lockups@[base + j]);
            }
            lemma_conversion_keeps_total(ds, ls);
            assert forall|j: int| 0 <= j < n implies converted(
                old_self.registry.drafts@[old_self.registry.group(draft_group_id)->0.draft_indices@[j] as int]->0,
                caller@,
                #[trigger] self.store.lockups@[base + j],
            ) by {
                assert(ds[j] == old_self.registry.drafts@[old_self.registry.group(draft_group_id)->0.draft_indices@[j] as int]->0);
            }
        }
        Ok(ids)
    }

    /// Would some account of the deposit whitelist remain after removing `account_ids`, or
    /// else the single `account_id`?
    pub open spec fn deposit_whitelist_survives(
        &self,
        account_id: Option<AccountId>,
        account_ids: Option<Vec<AccountId>>,
    ) -> bool {
        exists|i: int|
            0 <= i < self.deposit_whitelist@.len() && !match account_ids {
                Some(v) => listed(v@, #[trigger] self.deposit_whitelist@[i]@),
                None => account_id->0@ == self.deposit_whitelist@[i]@,
            }
    }

    /// Refuses a caller other than the manager.
    pub fn assert_account_can_update(&self, caller: &AccountId) -> (r: Result<(), LockupError>)
        ensures
            r is Ok <==> caller@ == self.manager@,
            r is Err ==> r == Err::<(), LockupError>(LockupError::Unauthorized),
    {
        if *caller == self.manager {
            Ok(())
        } else {
            Err(LockupError::Unauthorized)
        }
    }

    /// Adds `account_ids`, or else the single `account_id`, to the deposit whitelist.
    /// Deposit whitelist only; naming no account at all is refused.
    pub fn add_to_deposit_whitelist(
        &mut self,
        caller: &AccountId,
        account_id: Option<AccountId>,
        account_ids: Option<Vec<AccountId>>,
    ) -> (r: Result<(), LockupError>)
        requires
            old(self).wf(),
        ensures
            final(self).wf(),
            final(self).token_account_id == old(self).token_account_id,
            final(self).manager == old(self).manager,
            final(self).store == old(self).store,
            final(self).registry == old(self).registry,
            final(self).draft_operators_whitelist@ == old(self).draft_operators_whitelist@,
            !old(self).is_depositor(caller@) ==> r == Err::<(), LockupError>(LockupError::Unauthorized),
            old(self).is_depositor(caller@) && account_id is None && account_ids is None ==> r == Err::<
                (),
                LockupError,
            >(LockupError::NotFound),
            r is Err ==> final(self).deposit_whitelist@ == old(self).deposit_whitelist@,
            old(self).is_depositor(caller@) && (account_id is Some || account_ids is Some) ==> r is Ok,
            r is Ok ==> old(self).is_depositor(caller@) && forall|acc: Seq<char>| #[trigger] final(self).is_depositor(acc)
                == (old(self).is_depositor(acc) || match account_ids {
                    Some(v) => listed(v@, acc),
                    None => account_id->0@ == acc,
                }),
    {
        self.assert_deposit_whitelist(caller)?;
        let ids = match account_ids {
            Some(v) => v,
            None => match account_id {
                Some(a) => {
                    let mut v: Vec<AccountId> = Vec::new();
                    v.push(a);
                    v
                },
                None => {
                    return Err(LockupError::NotFound);
                },
            },
        };
        let ghost added = ids@;
        let ghost old_list = self.deposit_whitelist@;
        add_accounts(&mut self.deposit_whitelist, ids);
        proof {
            assert forall|acc: Seq<char>| #[trigger] self.is_depositor(acc) == (listed(old_list, acc) || listed(added, acc)) by {}
            if account_ids is None {
                assert forall|acc: Seq<char>| listed(added, acc) == (account_id->0@ == acc) by {
                    if account_id->0@ == acc {
                        assert(added[0]@ == acc);
                    }
                }
            }
        }
        Ok(())
    }

    /// Removes `account_ids`, or else the single `account_id`, from the deposit whitelist;
    /// refused when the whitelist would be left empty. Deposit whitelist only.
    pub fn remove_from_deposit_whitelist(
        &mut self,
        caller: &AccountId,
        account_id: Option<AccountId>,
        account_ids: Option<Vec<AccountId>>,
    ) -> (r: Result<(), LockupError>)
        requires
            old(self).wf(),
        ensures
            final(self).wf(),
            final(self).token_account_id == old(self).token_account_id,
            final(self).manager == old(self).manager,
            final(self).store == old(self).store,
            final(self).registry == old(self).registry,
            final(self).draft_operators_whitelist@ == old(self).draft_operators_whitelist@,
            !old(self).is_depositor(caller@) ==> r == Err::<(), LockupError>(LockupError::Unauthorized),
            old(self).is_depositor(caller@) && account_id is None && account_ids is None ==> r == Err::<
                (),
                LockupError,
            >(LockupError::NotFound),
            r is Err ==> final(self).deposit_whitelist@ == old(self).deposit_whitelist@,
            old(self).is_depositor(caller@) && (account_id is Some || account_ids is Some) ==> (r is Ok
                <==> old(self).deposit_whitelist_survives(account_id, account_ids)),
            old(self).is_depositor(caller@) && (account_id is Some || account_ids is Some) && !old(
                self,
            ).deposit_whitelist_survives(account_id, account_ids) ==> r == Err::<(), LockupError>(
                LockupError::InvalidState),
            r is Ok ==> old(self).is_depositor(caller@) && final(self).deposit_whitelist@.len() > 0 && forall|acc: Seq<char>|
                #[trigger] final(self).is_depositor(acc) == (old(self).is_depositor(acc) && !match account_ids {
                    Some(v) => listed(v@, acc),
                    None => account_id->0@ == acc,
                }),
    {
        self.assert_deposit_whitelist(caller)?;
        let ids = match account_ids {
            Some(v) => v,
            None => match account_id {
                Some(a) => {
                    let mut v: Vec<AccountId> = Vec::new();
                    v.push(a);
                    v
                },
                None => {
                    return Err(LockupError::NotFound);
                },
            },
        };
        let ghost removed = ids@;
        let kept = without_accounts(&self.deposit_whitelist, &ids);
        proof {
            let wl = self.deposit_whitelist@;
            if account_ids is None {
                assert forall|acc: Seq<char>| listed(removed, acc) == (account_id->0@ == acc) by {
                    if account_id->0@ == acc {
                        assert(removed[0]@ == acc);
                    }
                }
            }
            if kept@.len() > 0 {
                assert(listed(kept@, kept@[0]@));
                let i = choose|i: int| 0 <= i < wl.len() && #[trigger] wl[i]@ == kept@[0]@;
                assert(!listed(removed, wl[i]@));
                assert(self.deposit_whitelist_survives(account_id, account_ids));
            } else {
                assert(!self.deposit_whitelist_survives(account_id, account_ids)) by {
                    if self.deposit_whitelist_survives(account_id, account_ids) {
                        let i = choose|i: int| 0 <= i < wl.len() && !match account_ids {
                            Some(v) => listed(v@, #[trigger] wl[i]@),
                            None => account_id->0@ == wl[i]@,
                        };
                        assert(listed(wl, wl[i]@));
                        assert(listed(kept@, wl[i]@));
                    }
                }
            }
        }
        if kept.len() == 0 {
            return Err(LockupError::InvalidState);
        }
        self.deposit_whitelist = kept;
        proof {
            if account_ids is None {
                assert forall|acc: Seq<char>| listed(removed, acc) == (account_id->0@ == acc) by {
                    if account_id->0@ == acc {
                        assert(removed[0]@ == acc);
                    }
                }
            }
        }
        Ok(())
    }

    /// Adds `account_ids` to the draft operators whitelist. Deposit whitelist only.
    pub fn add_to_draft_operators_whitelist(&mut self, caller: &AccountId, account_ids: Vec<AccountId>) -> (r: Result<
        (),
        LockupError,
    >)
        requires
            old(self).wf(),
        ensures
            final(self).wf(),
            final(self).token_account_id == old(self).token_account_id,
            final(self).manager == old(self).manager,
            final(self).store == old(self).store,
            final(self).registry == old(self).registry,
            final(self).deposit_whitelist@ == old(self).deposit_whitelist@,
            r is Ok <==> old(self).is_depositor(caller@),
            r is Err ==> r == Err::<(), LockupError>(LockupError::Unauthorized) && final(self).draft_operators_whitelist@
                == old(self).draft_operators_whitelist@,
            r is Ok ==> forall|acc: Seq<char>| #[trigger] listed(final(self).draft_operators_whitelist@, acc)
                == (listed(old(self).draft_operators_whitelist@, acc) || listed(account_ids@, acc)),
    {
        self.assert_deposit_whitelist(caller)?;
        add_accounts(&mut self.draft_operators_whitelist, account_ids);
        Ok(())
    }

    /// Removes `account_ids` from the draft operators whitelist. Deposit whitelist only.
    pub fn remove_from_draft_operators_whitelist(&mut self, caller: &AccountId, account_ids: Vec<AccountId>) -> (r:
        Result<(), LockupError>)
        requires
            old(self).wf(),
        ensures
            final(self).wf(),
            final(self).token_account_id == old(self).token_account_id,
            final(self).manager == old(self).manager,
            final(self).store == old(self).store,
            final(self).registry == old(self).registry,
            final(self).deposit_whitelist@ == old(self).deposit_whitelist@,
            r is Ok <==> old(self).is_depositor(caller@),
            r is Err ==> r == Err::<(), LockupError>(LockupError::Unauthorized) && final(self).draft_operators_whitelist@
                == old(self).draft_operators_whitelist@,
            r is Ok ==> forall|acc: Seq<char>| #[trigger] listed(final(self).draft_operators_whitelist@, acc)
                == (listed(old(self).draft_operators_whitelist@, acc) && !listed(account_ids@, acc)),
    {
        self.assert_deposit_whitelist(caller)?;
        let kept = without_accounts(&self.draft_operators_whitelist, &account_ids);
        self.draft_operators_whitelist = kept;
        Ok(())
    }
}

} // verus!
