use vstd::prelude::*;

use crate::lockup::{AccountId, LockupError, VestingConditions};
use crate::schedule::{Balance, Schedule};

verus! {

/// Position of a draft in the registry.
pub type DraftIndex = u32;

/// Position of a draft group in the registry.
pub type DraftGroupIndex = u32;

/// An unfunded grant, staged in a draft group.
#[derive(Debug)]
pub struct Draft {
    pub draft_group_id: DraftGroupIndex,
    pub account_id: AccountId,
    pub schedule: Schedule,
    pub vesting_schedule: Option<VestingConditions>,
}

/// Where a draft group stands in its life. Funding converts a group's drafts into lockups
/// and removes the group in the same step, so no stored group is ever `Funded`; the checks
/// that refuse a funded group (adding drafts, deleting drafts, discarding) stay in place.
#[derive(Clone, Copy, Debug, PartialEq, Eq, Structural)]
pub enum DraftGroupState {
    Pending,
    Funded,
    Discarded,
}

/// Drafts that are funded and converted together.
#[derive(Debug)]
pub struct DraftGroup {
    pub total_amount: Balance,
    pub draft_indices: Vec<DraftIndex>,
    pub state: DraftGroupState,
}

/// All drafts and draft groups, each at the position of its id; a removed one leaves `None`.
#[derive(Debug)]
pub struct DraftRegistry {
    pub drafts: Vec<Option<Draft>>,
    pub draft_groups: Vec<Option<DraftGroup>>,
}

/// Size of the grant a draft slot holds; zero for an empty slot.
pub open spec fn slot_balance(drafts: Seq<Option<Draft>>, id: DraftIndex) -> nat {
    if id < drafts.len() {
        match drafts[id as int] {
            Some(d) => d.schedule.spec_total() as nat,
            None => 0,
        }
    } else {
        0
    }
}

/// Sum of the grant sizes of the drafts `ids`.
pub open spec fn ids_total(ids: Seq<DraftIndex>, drafts: Seq<Option<Draft>>) -> nat
    decreases ids.len(),
{
    if ids.len() == 0 {
        0
    } else {
        ids_total(ids.drop_last(), drafts) + slot_balance(drafts, ids.last())
    }
}

proof fn lemma_ids_total_frame(ids: Seq<DraftIndex>, d1: Seq<Option<Draft>>, d2: Seq<Option<Draft>>)
    requires
        forall|k: int| 0 <= k < ids.len() ==> slot_balance(d1, #[trigger] ids[k]) == slot_balance(d2, ids[k]),
    ensures
        ids_total(ids, d1) == ids_total(ids, d2),
    decreases ids.len(),
{
    if ids.len() > 0 {
        lemma_ids_total_frame(ids.drop_last(), d1, d2);
        assert(ids[ids.len() - 1] == ids.last());
    }
}

proof fn lemma_ids_total_remove(ids: Seq<DraftIndex>, drafts: Seq<Option<Draft>>, k: int)
    requires
        0 <= k < ids.len(),
    ensures
        ids_total(ids, drafts) == ids_total(ids.remove(k), drafts) + slot_balance(drafts, ids[k]),
    decreases ids.len(),
{
    if k < ids.len() - 1 {
        assert(ids.remove(k).drop_last() =~= ids.drop_last().remove(k));
        assert(ids.remove(k).last() == ids.last());
        lemma_ids_total_remove(ids.drop_last(), drafts, k);
    } else {
        assert(ids.remove(k) =~= ids.drop_last());
    }
}

/// Sum of the grant sizes of the drafts among `ds[..k]` that target group `g`.
pub open spec fn batch_total(ds: Seq<Draft>, g: DraftGroupIndex, k: int) -> nat
    decreases k,
{
    if k <= 0 || k > ds.len() {
        0
    } else {
        batch_total(ds, g, k - 1) + if ds[k - 1].draft_group_id == g {
            ds[k - 1].schedule.spec_total() as nat
        } else {
            0
        }
    }
}

/// `cur` is what deleting the drafts `del` leaves of group `og`: the group keeps its state and
/// loses exactly those members; it is removed once none is left; a group that loses no
/// member is unchanged.
pub open spec fn deleted_from(og: DraftGroup, cur: Option<DraftGroup>, del: Set<DraftIndex>) -> bool {
    &&& match cur {
        Some(ng) => ng.state == og.state && ng.draft_indices@.to_set() == og.draft_indices@.to_set().difference(del)
            && (ng.draft_indices@.len() > 0 || og.draft_indices@.len() == 0),
        None => og.draft_indices@.to_set().subset_of(del),
    }
    &&& (forall|x: int| 0 <= x < og.draft_indices@.len() ==> !del.contains(#[trigger] og.draft_indices@[x])) ==> cur
        == Some(og)
}

/// Sum of the grant sizes of the drafts `ds`.
pub open spec fn drafts_total(ds: Seq<Draft>) -> nat
    decreases ds.len(),
{
    if ds.len() == 0 {
        0
    } else {
        drafts_total(ds.drop_last()) + ds.last().schedule.spec_total() as nat
    }
}

proof fn lemma_batch_total_monotonic(ds: Seq<Draft>, g: DraftGroupIndex, j: int, k: int)
    requires
        0 <= j <= k <= ds.len(),
    ensures
        batch_total(ds, g, j) <= batch_total(ds, g, k),
    decreases k - j,
{
    if j < k {
        lemma_batch_total_monotonic(ds, g, j, k - 1);
    }
}

impl DraftRegistry {
    /// Every draft group's members are live drafts of that group, listed once, and its total
    /// is the sum of their grant sizes; every live draft has a valid schedule and is a member
    /// of its live group.
    pub open spec fn wf(&self) -> bool {
        &&& self.drafts@.len() <= u32::MAX
        &&& self.draft_groups@.len() <= u32::MAX
        &&& forall|g: int|
            #![trigger self.draft_groups@[g]]
            0 <= g < self.draft_groups@.len() && self.draft_groups@[g] is Some ==> {
                let grp = self.draft_groups@[g]->0;
                &&& grp.draft_indices@.no_duplicates()
                &&& grp.total_amount == ids_total(grp.draft_indices@, self.drafts@)
                &&& forall|k: int|
                    #![trigger grp.draft_indices@[k]]
                    0 <= k < grp.draft_indices@.len() ==> grp.draft_indices@[k] < self.drafts@.len()
                        && self.drafts@[grp.draft_indices@[k] as int] is Some
                        && self.drafts@[grp.draft_indices@[k] as int]->0.draft_group_id == g
            }
        &&& forall|i: int|
            #![trigger self.drafts@[i]]
            0 <= i < self.drafts@.len() && self.drafts@[i] is Some ==> {
                let d = self.drafts@[i]->0;
                &&& d.schedule.wf()
                &&& d.draft_group_id < self.draft_groups@.len()
                &&& self.draft_groups@[d.draft_group_id as int] is Some
                &&& self.draft_groups@[d.draft_group_id as int]->0.draft_indices@.contains(i as DraftIndex)
            }
    }

    pub open spec fn group(&self, g: DraftGroupIndex) -> Option<DraftGroup> {
        if g < self.draft_groups@.len() {
            self.draft_groups@[g as int]
        } else {
            None
        }
    }

    /// An empty registry.
    pub fn new() -> (r: DraftRegistry)
        ensures
            r.wf(),
            r.drafts@.len() == 0,
            r.draft_groups@.len() == 0,
    {
        DraftRegistry { drafts: Vec::new(), draft_groups: Vec::new() }
    }

    /// Opens an empty pending group under the next id.
    pub fn create_draft_group(&mut self) -> (r: Result<DraftGroupIndex, LockupError>)
        requires
            old(self).wf(),
        ensures
            final(self).wf(),
            final(self).drafts@ == old(self).drafts@,
            match r {
                Ok(g) => {
                    &&& g == old(self).draft_groups@.len()
                    &&& final(self).draft_groups@.len() == g + 1
                    &&& forall|h: DraftGroupIndex| h != g ==> #[trigger] final(self).group(h) == old(self).group(h)
                    &&& (final(self).group(g) matches Some(grp) && grp.total_amount == 0
                        && grp.draft_indices@.len() == 0 && grp.state == DraftGroupState::Pending)
                },
                Err(e) => e == LockupError::Overflow && old(self).draft_groups@.len() == u32::MAX
                    && *final(self) == *old(self),
            },
    {
        let n = self.draft_groups.len();
        if n >= 4294967295usize {
            return Err(LockupError::Overflow);
        }
        let ghost old_reg = *self;
        self.draft_groups.push(
            Some(DraftGroup { total_amount: 0, draft_indices: Vec::new(), state: DraftGroupState::Pending }),
        );
        proof {
            let groups = self.draft_groups@;
            assert forall|g: int| #![trigger groups[g]] 0 <= g < n implies groups[g] == old_reg.draft_groups@[g] by {}
            assert(ids_total(Seq::<DraftIndex>::empty(), self.drafts@) == 0);
            assert(groups[n as int]->0.draft_indices@ =~= Seq::<DraftIndex>::empty());
        }
        Ok(n as DraftGroupIndex)
    }

    /// Marks a group discarded; a group left with no drafts is removed at once.
    pub fn discard_draft_group(&mut self, g: DraftGroupIndex) -> (r: Result<(), LockupError>)
        requires
            old(self).wf(),
        ensures
            final(self).wf(),
            final(self).drafts@ == old(self).drafts@,
            match old(self).group(g) {
                None => r == Err::<(), LockupError>(LockupError::NotFound) && final(self).draft_groups@
                    == old(self).draft_groups@,
                Some(grp) => if grp.state == DraftGroupState::Funded {
                    r == Err::<(), LockupError>(LockupError::InvalidState) && final(self).draft_groups@
                        == old(self).draft_groups@
                } else {
                    &&& r is Ok
                    &&& forall|h: DraftGroupIndex| h != g ==> #[trigger] final(self).group(h) == old(self).group(h)
                    &&& grp.draft_indices@.len() == 0 ==> final(self).group(g) is None
                    &&& grp.draft_indices@.len() > 0 ==> (final(self).group(g) matches Some(ng)
                        && ng.state == DraftGroupState::Discarded && ng.total_amount == grp.total_amount
                        && ng.draft_indices@ == grp.draft_indices@)
                },
            },
    {
        let gi = g as usize;
        if gi >= self.draft_groups.len() {
            return Err(LockupError::NotFound);
        }
        let ghost old_reg = *self;
        let mut slot: Option<DraftGroup> = None;
        self.draft_groups.set_and_swap(gi, &mut slot);
        match slot {
            None => {
                self.draft_groups.set_and_swap(gi, &mut slot);
                assert(self.draft_groups@ =~= old_reg.draft_groups@);
                Err(LockupError::NotFound)
            },
            Some(mut grp) => {
                if grp.state == DraftGroupState::Funded {
                    let mut back = Some(grp);
                    self.draft_groups.set_and_swap(gi, &mut back);
                    assert(self.draft_groups@ =~= old_reg.draft_groups@);
                    return Err(LockupError::InvalidState);
                }
                if grp.draft_indices.len() > 0 {
                    grp.state = DraftGroupState::Discarded;
                    self.draft_groups.set(gi, Some(grp));
                } else {
                    proof {
                        assert forall|i: int| 0 <= i < self.drafts@.len() && #[trigger] self.drafts@[i] is Some
                            implies self.drafts@[i]->0.draft_group_id != g by {
                            let d = old_reg.drafts@[i]->0;
                            if d.draft_group_id == g {
                                assert(old_reg.draft_groups@[g as int]->0.draft_indices@.contains(i as DraftIndex));
                            }
                        }
                    }
                }
                proof {
                    let groups = self.draft_groups@;
                    assert forall|h: int| #![trigger groups[h]] 0 <= h < groups.len() && h != gi implies groups[h]
                        == old_reg.draft_groups@[h] by {}
                    assert forall|h: int|
                        #![trigger groups[h]]
                        0 <= h < groups.len() && groups[h] is Some implies {
                            let grp = groups[h]->0;
                            &&& grp.draft_indices@.no_duplicates()
                            &&& grp.total_amount == ids_total(grp.draft_indices@, self.drafts@)
                            &&& forall|k: int|
                                #![trigger grp.draft_indices@[k]]
                                0 <= k < grp.draft_indices@.len() ==> grp.draft_indices@[k] < self.drafts@.len()
                                    && self.drafts@[grp.draft_indices@[k] as int] is Some
                                    && self.drafts@[grp.draft_indices@[k] as int]->0.draft_group_id == h
                        } by {
                        assert(old_reg.draft_groups@[h] is Some);
                    }
                    assert forall|i: int|
                        #![trigger self.drafts@[i]]
                        0 <= i < self.drafts@.len() && self.drafts@[i] is Some implies {
                            let d = self.drafts@[i]->0;
                            &&& d.schedule.wf()
                            &&& d.draft_group_id < groups.len()
                            &&& groups[d.draft_group_id as int] is Some
                            &&& groups[d.draft_group_id as int]->0.draft_indices@.contains(i as DraftIndex)
                        } by {
                        assert(old_reg.drafts@[i] is Some);
                    }
                }
                Ok(())
            },
        }
    }

    /// Stores `d` under the next draft id and adds it to its group.
    fn add_draft(&mut self, d: Draft) -> (id: DraftIndex)
        requires
            old(self).wf(),
            old(self).drafts@.len() < u32::MAX,
            d.schedule.wf(),
            old(self).group(d.draft_group_id) matches Some(grp) && grp.total_amount + d.schedule.spec_total()
                <= u128::MAX,
        ensures
            final(self).wf(),
            id == old(self).drafts@.len(),
            final(self).drafts@ == old(self).drafts@.push(Some(d)),
            final(self).draft_groups@.len() == old(self).draft_groups@.len(),
            forall|h: DraftGroupIndex| h != d.draft_group_id ==> #[trigger] final(self).group(h) == old(self).group(h),
            final(self).group(d.draft_group_id) matches Some(ng) && ng.total_amount == old(self).group(
                d.draft_group_id)->0.total_amount + d.schedule.spec_total() && ng.state == old(self).group(
                d.draft_group_id)->0.state && ng.draft_indices@ == old(self).group(
                d.draft_group_id)->0.draft_indices@.push(id),
    {
        let ghost old_reg = *self;
        let ghost dv = d;
        let gi = d.draft_group_id as usize;
        let bal = d.schedule.total_balance();
        let id = self.drafts.len() as DraftIndex;
        self.drafts.push(Some(d));
        let mut slot: Option<DraftGroup> = None;
        self.draft_groups.set_and_swap(gi, &mut slot);
        let mut grp = match slot {
            Some(grp) => grp,
            None => {
                assert(false);
                return id;
            },
        };
        let ghost og = grp;
        grp.total_amount = grp.total_amount + bal;
        grp.draft_indices.push(id);
        self.draft_groups.set(gi, Some(grp));
        proof {
            let drafts = self.drafts@;
            let groups = self.draft_groups@;
            let g = gi as int;
            assert(slot_balance(drafts, id) == bal);
            assert forall|h: int|
                #![trigger groups[h]]
                0 <= h < groups.len() && groups[h] is Some implies {
                    let grp = groups[h]->0;
                    &&& grp.draft_indices@.no_duplicates()
                    &&& grp.total_amount == ids_total(grp.draft_indices@, drafts)
                    &&& forall|k: int|
                        #![trigger grp.draft_indices@[k]]
                        0 <= k < grp.draft_indices@.len() ==> grp.draft_indices@[k] < drafts.len()
                            && drafts[grp.draft_indices@[k] as int] is Some
                            && drafts[grp.draft_indices@[k] as int]->0.draft_group_id == h
                } by {
                let old_ids = old_reg.draft_groups@[h]->0.draft_indices@;
                assert(old_reg.draft_groups@[h] is Some);
                assert forall|k: int| 0 <= k < old_ids.len() implies slot_balance(old_reg.drafts@, #[trigger] old_ids[k])
                    == slot_balance(drafts, old_ids[k]) by {
                    assert(drafts[old_ids[k] as int] == old_reg.drafts@[old_ids[k] as int]);
                }
                lemma_ids_total_frame(old_ids, old_reg.drafts@, drafts);
                if h == g {
                    let nids = groups[h]->0.draft_indices@;
                    assert(nids == old_ids.push(id));
                    assert(nids.drop_last() == old_ids);
                    assert forall|x: int, y: int| 0 <= x < y < nids.len() implies nids[x] != nids[y] by {
                        if y == old_ids.len() {
                            assert(old_ids[x] < old_reg.drafts@.len());
                        } else {
                            assert(old_ids[x] == nids[x] && old_ids[y] == nids[y]);
                        }
                    }
                    assert forall|k: int| #![trigger nids[k]] 0 <= k < nids.len() implies nids[k] < drafts.len()
                        && drafts[nids[k] as int] is Some && drafts[nids[k] as int]->0.draft_group_id == h by {
                        if k < old_ids.len() {
                            assert(nids[k] == old_ids[k]);
                            assert(drafts[old_ids[k] as int] == old_reg.drafts@[old_ids[k] as int]);
                        }
                    }
                } else {
                    assert(groups[h] == old_reg.draft_groups@[h]);
                    assert forall|k: int| #![trigger old_ids[k]] 0 <= k < old_ids.len() implies drafts[old_ids[k] as int]
                        == old_reg.drafts@[old_ids[k] as int] by {}
                }
            }
            assert forall|i: int|
                #![trigger drafts[i]]
                0 <= i < drafts.len() && drafts[i] is Some implies {
                    let d = drafts[i]->0;
                    &&& d.schedule.wf()
                    &&& d.draft_group_id < groups.len()
                    &&& groups[d.draft_group_id as int] is Some
                    &&& groups[d.draft_group_id as int]->0.draft_indices@.contains(i as DraftIndex)
                } by {
                if i < old_reg.drafts@.len() {
                    assert(drafts[i] == old_reg.drafts@[i]);
                    let od = old_reg.drafts@[i]->0;
                    if od.draft_group_id as int == g {
                        let old_ids = old_reg.draft_groups@[g]->0.draft_indices@;
                        let k = choose|k: int| 0 <= k < old_ids.len() && old_ids[k] == i as DraftIndex;
                        assert(groups[g]->0.draft_indices@[k] == i as DraftIndex);
                    } else {
                        assert(groups[od.draft_group_id as int] == old_reg.draft_groups@[od.draft_group_id as int]);
                    }
                } else {
                    assert(groups[g]->0.draft_indices@[groups[g]->0.draft_indices@.len() - 1] == id);
                }
            }
            assert forall|h: DraftGroupIndex| h != dv.draft_group_id implies #[trigger] self.group(h) == old_reg.group(h) by {
                if h < groups.len() {
                    assert(groups[h as int] == old_reg.draft_groups@[h as int]);
                }
            }
        }
        id
    }

    /// Why draft `k` of a batch cannot be added, if it cannot: its group is missing, the group
    /// no longer takes drafts or the schedule is invalid, or the batch would overflow the
    /// group's total.
    pub open spec fn draft_error(&self, ds: Seq<Draft>, k: int) -> Option<LockupError> {
        match self.group(ds[k].draft_group_id) {
            None => Some(LockupError::NotFound),
            Some(grp) => if grp.state != DraftGroupState::Pending || !ds[k].schedule.wf() {
                Some(LockupError::InvalidState)
            } else if grp.total_amount + batch_total(ds, ds[k].draft_group_id, ds.len() as int) > u128::MAX {
                Some(LockupError::Overflow)
            } else {
                None
            },
        }
    }

    /// The error of the first draft from position `k` on that cannot be added.
    pub open spec fn first_draft_error(&self, ds: Seq<Draft>, k: int) -> Option<LockupError>
        decreases ds.len() - k,
    {
        if k < 0 || k >= ds.len() {
            None
        } else if self.draft_error(ds, k) is Some {
            self.draft_error(ds, k)
        } else {
            self.first_draft_error(ds, k + 1)
        }
    }

    proof fn lemma_first_error_none(&self, ds: Seq<Draft>, k: int)
        requires
            0 <= k,
            self.first_draft_error(ds, k) is None,
        ensures
            forall|j: int| k <= j < ds.len() ==> #[trigger] self.draft_error(ds, j) is None,
        decreases ds.len() - k,
    {
        if k < ds.len() {
            self.lemma_first_error_none(ds, k + 1);
        }
    }

    /// Why the batch `ds` cannot be added, if it cannot.
    pub open spec fn create_error(&self, ds: Seq<Draft>) -> Option<LockupError> {
        if self.drafts@.len() + ds.len() > u32::MAX {
            Some(LockupError::Overflow)
        } else {
            self.first_draft_error(ds, 0)
        }
    }

    /// Adds a batch of drafts to their pending groups, all or none; returns their new ids.
    pub fn create_drafts(&mut self, drafts: Vec<Draft>) -> (r: Result<Vec<DraftIndex>, LockupError>)
        requires
            old(self).wf(),
        ensures
            final(self).wf(),
            match r {
                Err(e) => old(self).create_error(drafts@) == Some(e) && final(self).drafts@ == old(self).drafts@
                    && final(self).draft_groups@ == old(self).draft_groups@,
                Ok(ids) => {
                    &&& old(self).create_error(drafts@) is None
                    &&& ids@.len() == drafts@.len()
                    &&& forall|k: int| 0 <= k < ids@.len() ==> #[trigger] ids@[k] == old(self).drafts@.len() + k
                    &&& final(self).drafts@.len() == old(self).drafts@.len() + drafts@.len()
                    &&& forall|i: int| 0 <= i < old(self).drafts@.len() ==> #[trigger] final(self).drafts@[i]
                        == old(self).drafts@[i]
                    &&& forall|k: int| 0 <= k < drafts@.len()
                        ==> #[trigger] final(self).drafts@[old(self).drafts@.len() + k] == Some(drafts@[k])
                    &&& final(self).draft_groups@.len() == old(self).draft_groups@.len()
                    &&& forall|h: DraftGroupIndex| #[trigger] old(self).group(h) matches Some(og)
                        ==> (final(self).group(h) matches Some(ng) && ng.state == og.state
                        && ng.total_amount == og.total_amount + batch_total(drafts@, h, drafts@.len() as int))
                    &&& forall|h: DraftGroupIndex| #[trigger] old(self).group(h) is None ==> final(self).group(h) is None
                },
            },
    {
        let ghost ds = drafts@;
        let n = drafts.len();
        if n > 4294967295usize || self.drafts.len() > 4294967295usize - n {
            return Err(LockupError::Overflow);
        }
        let mut k: usize = 0;
        while k < n
            invariant
                self.wf(),
                n == ds.len(),
                drafts@ == ds,
                k <= n,
                self.first_draft_error(ds, 0) == self.first_draft_error(ds, k as int),
                *self == *old(self),
                self.drafts@.len() + n <= u32::MAX,
            decreases n - k,
        {
            let gid = drafts[k].draft_group_id;
            let gi = gid as usize;
            if gi >= self.draft_groups.len() {
                assert(self.draft_error(ds, k as int) == Some(LockupError::NotFound));
                return Err(LockupError::NotFound);
            }
            match &self.draft_groups[gi] {
                None => {
                    assert(self.draft_error(ds, k as int) == Some(LockupError::NotFound));
                    return Err(LockupError::NotFound);
                },
                Some(grp) => {
                    if grp.state != DraftGroupState::Pending || !drafts[k].schedule.is_valid() {
                        assert(self.draft_error(ds, k as int) == Some(LockupError::InvalidState));
                        return Err(LockupError::InvalidState);
                    }
                    let mut s: Balance = grp.total_amount;
                    let mut j: usize = 0;
                    while j < n
                        invariant
                            n == ds.len(),
                            drafts@ == ds,
                            j <= n,
                            k < n,
                            self.wf(),
                            *self == *old(self),
                            self.drafts@.len() + n <= u32::MAX,
                            self.first_draft_error(ds, 0) == self.first_draft_error(ds, k as int),
                            self.group(gid) == Some(*grp),
                            gid == ds[k as int].draft_group_id,
                            grp.state == DraftGroupState::Pending,
                            ds[k as int].schedule.wf(),
                            s == grp.total_amount + batch_total(ds, gid, j as int),
                        decreases n - j,
                    {
                        if drafts[j].draft_group_id == gid {
                            let bal = drafts[j].schedule.total_balance();
                            if s > u128::MAX - bal {
                                proof {
                                    lemma_batch_total_monotonic(ds, gid, j + 1, n as int);
                                    assert(self.draft_error(ds, k as int) == Some(LockupError::Overflow));
                                }
                                return Err(LockupError::Overflow);
                            }
                            s = s + bal;
                        }
                        j += 1;
                    }
                    assert(self.draft_error(ds, k as int) is None);
                    assert(self.first_draft_error(ds, k as int) == self.first_draft_error(ds, k + 1));
                },
            }
            k += 1;
        }
        proof {
            self.lemma_first_error_none(ds, 0);
        }
        let ghost old_reg = *self;
        let ghost base = self.drafts@.len();
        assert forall|j: int| 0 <= j < n implies (#[trigger] old_reg.group(ds[j].draft_group_id) matches Some(og)
            && og.total_amount + batch_total(ds, ds[j].draft_group_id, n as int) <= u128::MAX
            && ds[j].schedule.wf()) by {
            assert(self.draft_error(ds, j) is None);
        }
        let mut ids: Vec<DraftIndex> = Vec::new();
        let mut input = drafts;
        let mut k: usize = 0;
        while input.len() > 0
            invariant
                self.wf(),
                n == ds.len(),
                k <= n,
                input@ == ds.subrange(k as int, n as int),
                old_reg.first_draft_error(ds, k as int) is None,
                base + n <= u32::MAX,
                self.drafts@.len() == base + k,
                ids@.len() == k,
                forall|j: int| 0 <= j < k ==> #[trigger] ids@[j] == base + j,
                forall|i: int| 0 <= i < base ==> #[trigger] self.drafts@[i] == old_reg.drafts@[i],
                forall|j: int| 0 <= j < k ==> #[trigger] self.drafts@[base + j] == Some(ds[j]),
                self.draft_groups@.len() == old_reg.draft_groups@.len(),
                forall|h: DraftGroupIndex| #[trigger] old_reg.group(h) matches Some(og) ==> (self.group(h) matches Some(
                    ng) && ng.state == og.state && ng.total_amount == og.total_amount + batch_total(ds, h, k as int)),
                forall|h: DraftGroupIndex| #[trigger] old_reg.group(h) is None ==> self.group(h) is None,
                forall|j: int|
                    k <= j < n ==> (#[trigger] old_reg.group(ds[j].draft_group_id) matches Some(og) && og.total_amount
                        + batch_total(ds, ds[j].draft_group_id, n as int) <= u128::MAX && ds[j].schedule.wf()),
            decreases n - k,
        {
            proof {
                assert(old_reg.draft_error(ds, k as int) is None);
                lemma_batch_total_monotonic(ds, ds[k as int].draft_group_id, k + 1, n as int);
                if k + 1 < n {
                    assert(old_reg.first_draft_error(ds, k as int) == old_reg.first_draft_error(ds, k + 1));
                }
            }
            let d = input.remove(0);
            assert(d == ds[k as int]);
            let ghost gid = d.draft_group_id;
            let ghost before = *self;
            let id = self.add_draft(d);
            ids.push(id);
            k += 1;
            proof {
                assert(input@ =~= ds.subrange(k as int, n as int));
                assert forall|h: DraftGroupIndex| #[trigger] old_reg.group(h) is Some implies (self.group(h) matches Some(
                    ng) && ng.state == old_reg.group(h)->0.state && ng.total_amount == old_reg.group(h)->0.total_amount
                    + batch_total(ds, h, k as int)) by {
                    assert(before.group(h) is Some);
                }
                assert forall|j: int| 0 <= j < k implies #[trigger] self.drafts@[base + j] == Some(ds[j]) by {
                    if j < k - 1 {
                        assert(self.drafts@[base + j] == before.drafts@[base + j]);
                    }
                }
                assert forall|h: DraftGroupIndex| #[trigger] old_reg.group(h) is None implies self.group(h) is None by {
                    assert(before.group(h) is None);
                }
            }
        }
        proof {
            if n > 0 {
                assert(k == n);
            }
            assert(old_reg.first_draft_error(ds, 0) is None) by {
                if n == 0 {
                } else {
                    assert(old_reg.first_draft_error(ds, 0) == old_reg.first_draft_error(ds, n as int));
                }
            }
        }
        Ok(ids)
    }

    /// Takes draft `id` out of the registry and out of its group; a group left empty is
    /// removed.
    #[verifier::rlimit(60)]
    fn remove_draft(&mut self, id: DraftIndex) -> (d: Draft)
        requires
            old(self).wf(),
            id < old(self).drafts@.len(),
            old(self).drafts@[id as int] is Some,
        ensures
            final(self).wf(),
            d == old(self).drafts@[id as int]->0,
            final(self).drafts@ == old(self).drafts@.update(id as int, None),
            final(self).draft_groups@.len() == old(self).draft_groups@.len(),
            forall|h: DraftGroupIndex| h != d.draft_group_id ==> #[trigger] final(self).group(h) == old(self).group(h),
            old(self).group(d.draft_group_id) is Some,
            old(self).group(d.draft_group_id)->0.draft_indices@.contains(id),
            old(self).group(d.draft_group_id)->0.total_amount == d.schedule.spec_total() + match final(self).group(
                d.draft_group_id) {
                Some(ng) => ng.total_amount,
                None => 0,
            },
            final(self).group(d.draft_group_id) matches Some(ng) ==> ng.state == old(self).group(
                d.draft_group_id)->0.state && ng.draft_indices@.len() == old(self).group(
                d.draft_group_id)->0.draft_indices@.len() - 1 && (old(self).group(d.draft_group_id)->0.draft_indices@[0] == id
                ==> ng.draft_indices@ == old(self).group(d.draft_group_id)->0.draft_indices@.drop_first()),
            final(self).group(d.draft_group_id) is None ==> old(self).group(d.draft_group_id)->0.draft_indices@ == seq![id],
            final(self).group(d.draft_group_id) matches Some(ng) ==> ng.draft_indices@.len() > 0,
            final(self).group(d.draft_group_id) matches Some(ng) ==> ng.draft_indices@.to_set() == old(self).group(
                d.draft_group_id)->0.draft_indices@.to_set().remove(id),
    {
        let ghost old_reg = *self;
        let mut slot: Option<Draft> = None;
        self.drafts.set_and_swap(id as usize, &mut slot);
        let d = match slot {
            Some(d) => d,
            None => {
                assert(false);
                return Draft {
                    draft_group_id: 0,
                    account_id: String::new(),
                    schedule: Schedule(Vec::new()),
                    vesting_schedule: None,
                };
            },
        };
        let ghost g = d.draft_group_id as int;
        let gi = d.draft_group_id as usize;
        let bal = d.schedule.total_balance();
        let mut gslot: Option<DraftGroup> = None;
        self.draft_groups.set_and_swap(gi, &mut gslot);
        let mut grp = match gslot {
            Some(grp) => grp,
            None => {
                assert(false);
                return d;
            },
        };
        let ghost og = grp;
        let ghost old_ids = og.draft_indices@;
        let n = grp.draft_indices.len();
        let mut k: usize = 0;
        while k < n && grp.draft_indices[k] != id
            invariant
                grp == og,
                grp.draft_indices@ == old_ids,
                n == old_ids.len(),
                k <= n,
                forall|j: int| 0 <= j < k ==> old_ids[j] != id,
            decreases n - k,
        {
            k += 1;
        }
        if k == n {
            assert(old_ids.contains(id));
            assert(false);
            return d;
        }
        proof {
            lemma_ids_total_remove(old_ids, old_reg.drafts@, k as int);
        }
        grp.draft_indices.remove(k);
        grp.total_amount = grp.total_amount - bal;
        let pruned = grp.draft_indices.len() == 0;
        if !pruned {
            self.draft_groups.set(gi, Some(grp));
        }
        proof {
            let drafts = self.drafts@;
            let groups = self.draft_groups@;
            let nids = old_ids.remove(k as int);
            assert(!nids.contains(id)) by {
                if nids.contains(id) {
                    let x = choose|x: int| 0 <= x < nids.len() && nids[x] == id;
                    let ox = if x < k { x } else { x + 1 };
                    assert(old_ids[ox] == id && old_ids[k as int] == id && ox != k);
                }
            }
            assert forall|h: int|
                #![trigger groups[h]]
                0 <= h < groups.len() && groups[h] is Some implies {
                    let grp = groups[h]->0;
                    &&& grp.draft_indices@.no_duplicates()
                    &&& grp.total_amount == ids_total(grp.draft_indices@, drafts)
                    &&& forall|k: int|
                        #![trigger grp.draft_indices@[k]]
                        0 <= k < grp.draft_indices@.len() ==> grp.draft_indices@[k] < drafts.len()
                            && drafts[grp.draft_indices@[k] as int] is Some
                            && drafts[grp.draft_indices@[k] as int]->0.draft_group_id == h
                } by {
                assert(old_reg.draft_groups@[h] is Some);
                if h == g {
                    let ids2 = groups[h]->0.draft_indices@;
                    assert(ids2 == nids);
                    assert forall|j: int| 0 <= j < nids.len() implies slot_balance(old_reg.drafts@, #[trigger] nids[j])
                        == slot_balance(drafts, nids[j]) by {
                        assert(nids[j] != id);
                    }
                    lemma_ids_total_frame(nids, old_reg.drafts@, drafts);
                    assert forall|x: int, y: int| 0 <= x < y < nids.len() implies nids[x] != nids[y] by {
                        let ox = if x < k { x } else { x + 1 };
                        let oy = if y < k { y } else { y + 1 };
                        assert(nids[x] == old_ids[ox] && nids[y] == old_ids[oy]);
                    }
                    assert forall|j: int| #![trigger nids[j]] 0 <= j < nids.len() implies nids[j] < drafts.len()
                        && drafts[nids[j] as int] is Some && drafts[nids[j] as int]->0.draft_group_id == h by {
                        let oj = if j < k { j } else { j + 1 };
                        assert(nids[j] == old_ids[oj]);
                        assert(nids[j] != id);
                    }
                } else {
                    let ids2 = groups[h]->0.draft_indices@;
                    assert(groups[h] == old_reg.draft_groups@[h]);
                    assert forall|j: int| 0 <= j < ids2.len() implies slot_balance(old_reg.drafts@, #[trigger] ids2[j])
                        == slot_balance(drafts, ids2[j]) by {
                        assert(ids2[j] != id) by {
                            if ids2[j] == id {
                                assert(old_reg.drafts@[id as int]->0.draft_group_id == h);
                            }
                        }
                    }
                    lemma_ids_total_frame(ids2, old_reg.drafts@, drafts);
                    assert forall|j: int| #![trigger ids2[j]] 0 <= j < ids2.len() implies drafts[ids2[j] as int]
                        == old_reg.drafts@[ids2[j] as int] by {
                        if ids2[j] == id {
                            assert(old_reg.drafts@[id as int]->0.draft_group_id == h);
                        }
                    }
                }
            }
            assert forall|i: int|
                #![trigger drafts[i]]
                0 <= i < drafts.len() && drafts[i] is Some implies {
                    let d = drafts[i]->0;
                    &&& d.schedule.wf()
                    &&& d.draft_group_id < groups.len()
                    &&& groups[d.draft_group_id as int] is Some
                    &&& groups[d.draft_group_id as int]->0.draft_indices@.contains(i as DraftIndex)
                } by {
                assert(i != id);
                assert(drafts[i] == old_reg.drafts@[i]);
                let od = old_reg.drafts@[i]->0;
                if od.draft_group_id as int == g {
                    let x = choose|x: int| 0 <= x < old_ids.len() && old_ids[x] == i as DraftIndex;
                    assert(x != k);
                    let nx = if x < k { x } else { x - 1 };
                    assert(nids[nx] == i as DraftIndex);
                    assert(nids.len() > 0);
                } else {
                    assert(groups[od.draft_group_id as int] == old_reg.draft_groups@[od.draft_group_id as int]);
                }
            }
            assert forall|h: DraftGroupIndex| h != d.draft_group_id implies #[trigger] self.group(h) == old_reg.group(h) by {
                if h < groups.len() {
                    assert(groups[h as int] == old_reg.draft_groups@[h as int]);
                }
            }
            assert(nids.to_set() =~= old_ids.to_set().remove(id)) by {
                assert forall|v: DraftIndex| nids.contains(v) implies old_ids.contains(v) by {
                    let x = choose|x: int| 0 <= x < nids.len() && nids[x] == v;
                    let ox = if x < k { x } else { x + 1 };
                    assert(old_ids[ox] == v);
                }
                assert forall|v: DraftIndex| old_ids.contains(v) && v != id implies nids.contains(v) by {
                    let x = choose|x: int| 0 <= x < old_ids.len() && old_ids[x] == v;
                    if x < k {
                        assert(nids[x] == v);
                    } else {
                        assert(x != k);
                        assert(nids[x - 1] == v);
                    }
                }
            }
            if old_ids[0] == id {
                assert(k == 0);
                assert(nids =~= old_ids.drop_first());
            }
            if pruned {
                assert(old_ids =~= seq![id]) by {
                    assert(old_ids.len() == 1);
                }
                assert(ids_total(nids, old_reg.drafts@) == 0);
            }
        }
        d
    }

    /// Why draft id `ids[k]` cannot be deleted, if it cannot: it is missing (or listed
    /// twice), or its group has not been discarded.
    pub open spec fn delete_error(&self, ids: Seq<DraftIndex>, k: int) -> Option<LockupError> {
        let id = ids[k];
        if id >= self.drafts@.len() || self.drafts@[id as int] is None || ids.take(k).contains(id) {
            Some(LockupError::NotFound)
        } else if self.group(self.drafts@[id as int]->0.draft_group_id) matches Some(g) && g.state
            == DraftGroupState::Discarded {
            None
        } else {
            Some(LockupError::InvalidState)
        }
    }

    /// The error of the first id from position `k` on that cannot be deleted.
    pub open spec fn first_delete_error(&self, ids: Seq<DraftIndex>, k: int) -> Option<LockupError>
        decreases ids.len() - k,
    {
        if k < 0 || k >= ids.len() {
            None
        } else if self.delete_error(ids, k) is Some {
            self.delete_error(ids, k)
        } else {
            self.first_delete_error(ids, k + 1)
        }
    }

    proof fn lemma_first_delete_error_none(&self, ids: Seq<DraftIndex>, k: int)
        requires
            0 <= k,
            self.first_delete_error(ids, k) is None,
        ensures
            forall|j: int| k <= j < ids.len() ==> #[trigger] self.delete_error(ids, j) is None,
        decreases ids.len() - k,
    {
        if k < ids.len() {
            self.lemma_first_delete_error_none(ids, k + 1);
        }
    }

    /// Deletes the drafts `ids` of discarded groups, all or none; groups left empty are
    /// removed.
    pub fn delete_drafts(&mut self, ids: Vec<DraftIndex>) -> (r: Result<(), LockupError>)
        requires
            old(self).wf(),
        ensures
            final(self).wf(),
            match r {
                Err(e) => old(self).first_delete_error(ids@, 0) == Some(e) && final(self).drafts@ == old(
                    self).drafts@ && final(self).draft_groups@ == old(self).draft_groups@,
                Ok(_) => {
                    &&& old(self).first_delete_error(ids@, 0) is None
                    &&& final(self).drafts@.len() == old(self).drafts@.len()
                    &&& forall|i: int| 0 <= i < final(self).drafts@.len() ==> #[trigger] final(self).drafts@[i]
                        == if ids@.contains(i as DraftIndex) { None } else { old(self).drafts@[i] }
                    &&& forall|h: DraftGroupIndex| #[trigger] old(self).group(h) matches Some(og) ==> deleted_from(
                        og, final(self).group(h), ids@.to_set())
                    &&& forall|h: DraftGroupIndex| #[trigger] old(self).group(h) matches Some(og) ==> (final(self).group(h) matches Some(ng)
                        ==> ng.total_amount == ids_total(ng.draft_indices@, old(self).drafts@))
                    &&& forall|h: DraftGroupIndex| #[trigger] old(self).group(h) is None ==> final(self).group(h) is None
                },
            },
    {
        let ghost s = ids@;
        let n = ids.len();
        let mut k: usize = 0;
        while k < n
            invariant
                self.wf(),
                *self == *old(self),
                n == s.len(),
                ids@ == s,
                k <= n,
                self.first_delete_error(s, 0) == self.first_delete_error(s, k as int),
            decreases n - k,
        {
            let id = ids[k];
            if id as usize >= self.drafts.len() {
                assert(self.delete_error(s, k as int) == Some(LockupError::NotFound));
                return Err(LockupError::NotFound);
            }
            let mut j: usize = 0;
            while j < k
                invariant
                    j <= k < n,
                    n == s.len(),
                    ids@ == s,
                    id == s[k as int],
                    self.wf(),
                    *self == *old(self),
                    self.first_delete_error(s, 0) == self.first_delete_error(s, k as int),
                    id < self.drafts@.len(),
                    forall|x: int| 0 <= x < j ==> s[x] != id,
                decreases k - j,
            {
                if ids[j] == id {
                    assert(s.take(k as int)[j as int] == id);
                    assert(self.delete_error(s, k as int) == Some(LockupError::NotFound));
                    return Err(LockupError::NotFound);
                }
                j += 1;
            }
            assert(!s.take(k as int).contains(id)) by {
                if s.take(k as int).contains(id) {
                    let x = choose|x: int| 0 <= x < k && s.take(k as int)[x] == id;
                    assert(s[x] == id);
                }
            }
            match &self.drafts[id as usize] {
                None => {
                    assert(self.delete_error(s, k as int) == Some(LockupError::NotFound));
                    return Err(LockupError::NotFound);
                },
                Some(d) => {
                    let gi = d.draft_group_id as usize;
                    let discarded = match &self.draft_groups[gi] {
                        Some(grp) => grp.state == DraftGroupState::Discarded,
                        None => false,
                    };
                    if !discarded {
                        assert(self.delete_error(s, k as int) == Some(LockupError::InvalidState));
                        return Err(LockupError::InvalidState);
                    }
                },
            }
            assert(self.delete_error(s, k as int) is None);
            assert(self.first_delete_error(s, k as int) == self.first_delete_error(s, k + 1));
            k += 1;
        }
        let ghost old_reg = *self;
        proof {
            self.lemma_first_delete_error_none(s, 0);
            let e = s.take(0).to_set();
            assert(e =~= Set::<DraftIndex>::empty());
            assert forall|h: DraftGroupIndex| #[trigger] old_reg.group(h) is Some implies deleted_from(
                old_reg.group(h)->0, self.group(h), e) by {
                let og = old_reg.group(h)->0;
                assert(og.draft_indices@.to_set().difference(e) =~= og.draft_indices@.to_set());
            }
        }
        let mut k: usize = 0;
        while k < n
            invariant
                self.wf(),
                old_reg.wf(),
                n == s.len(),
                ids@ == s,
                k <= n,
                forall|j: int| 0 <= j < n ==> #[trigger] old_reg.delete_error(s, j) is None,
                self.drafts@.len() == old_reg.drafts@.len(),
                forall|i: int| 0 <= i < self.drafts@.len() ==> #[trigger] self.drafts@[i]
                    == if s.take(k as int).contains(i as DraftIndex) { None } else { old_reg.drafts@[i] },
                forall|h: DraftGroupIndex| #[trigger] old_reg.group(h) is Some ==> deleted_from(
                    old_reg.group(h)->0, self.group(h), s.take(k as int).to_set()),
                forall|h: DraftGroupIndex| #[trigger] old_reg.group(h) is None ==> self.group(h) is None,
            decreases n - k,
        {
            let id = ids[k];
            let ghost before = *self;
            proof {
                assert(old_reg.delete_error(s, k as int) is None);
                assert(!s.take(k as int).contains(id));
                assert(self.drafts@[id as int] == old_reg.drafts@[id as int]);
            }
            let d = self.remove_draft(id);
            k += 1;
            proof {
                assert forall|i: int| 0 <= i < self.drafts@.len() implies #[trigger] self.drafts@[i]
                    == if s.take(k as int).contains(i as DraftIndex) { None } else { old_reg.drafts@[i] } by {
                    assert(s.take(k as int) =~= s.take(k - 1).push(id));
                    if i == id {
                        assert(s.take(k as int)[k - 1] == id);
                    } else {
                        assert(before.drafts@[i] == self.drafts@[i]);
                    }
                }
                let t0 = s.take(k - 1).to_set();
                let t1 = s.take(k as int).to_set();
                assert(s.take(k as int) =~= s.take(k - 1).push(id));
                s.take(k - 1).lemma_push_to_set_commute(id);
                assert(t1 == t0.insert(id));
                let g = d.draft_group_id;
                assert(old_reg.drafts@[id as int] == before.drafts@[id as int]);
                assert forall|h: DraftGroupIndex| #[trigger] old_reg.group(h) is Some implies deleted_from(
                    old_reg.group(h)->0, self.group(h), t1) by {
                    let og = old_reg.group(h)->0;
                    let oids = og.draft_indices@;
                    assert(old_reg.draft_groups@[h as int] is Some);
                    if h != g {
                        assert(!oids.contains(id)) by {
                            if oids.contains(id) {
                                let x = choose|x: int| 0 <= x < oids.len() && oids[x] == id;
                                assert(oids[x] == id);
                            }
                        }
                        assert(og.draft_indices@.to_set().difference(t1) =~= og.draft_indices@.to_set().difference(t0));
                        if self.group(h) is None {
                            assert(og.draft_indices@.to_set().subset_of(t1));
                        }
                    } else {
                        assert(oids.contains(id));
                        let xi = choose|x: int| 0 <= x < oids.len() && oids[x] == id;
                        assert(t1.contains(oids[xi]));
                        assert(before.group(h) is Some) by {
                            if before.group(h) is None {
                                assert(oids.to_set().subset_of(t0));
                                assert(oids.to_set().contains(id));
                            }
                        }
                        let bg = before.group(h)->0;
                        assert(bg.draft_indices@.to_set() == oids.to_set().difference(t0));
                        match self.group(h) {
                            Some(ng) => {
                                assert(ng.draft_indices@.to_set() =~= oids.to_set().difference(t1));
                            },
                            None => {
                                assert(bg.draft_indices@ == seq![id]);
                                assert(bg.draft_indices@.to_set() =~= set![id]) by {
                                    assert(bg.draft_indices@[0] == id);
                                }
                                assert forall|v: DraftIndex| oids.to_set().contains(v) implies t1.contains(v) by {
                                    if !t0.contains(v) {
                                        assert(bg.draft_indices@.to_set().contains(v));
                                    }
                                }
                            },
                        }
                    }
                }
                assert forall|h: DraftGroupIndex| #[trigger] old_reg.group(h) is None implies self.group(h) is None by {
                    assert(before.group(h) is None);
                    if h == d.draft_group_id {
                        assert(old_reg.drafts@[id as int] is Some);
                    }
                }
            }
        }
        proof {
            assert forall|h: DraftGroupIndex| #[trigger] old_reg.group(h) is Some && self.group(h) is Some implies self.group(
                h)->0.total_amount == ids_total(self.group(h)->0.draft_indices@, old_reg.drafts@) by {
                let nids = self.group(h)->0.draft_indices@;
                assert(self.draft_groups@[h as int] is Some);
                assert(s.take(n as int) =~= s);
                assert forall|j: int| 0 <= j < nids.len() implies slot_balance(self.drafts@, #[trigger] nids[j])
                    == slot_balance(old_reg.drafts@, nids[j]) by {
                    assert(nids.to_set().contains(nids[j]));
                    assert(!s.to_set().contains(nids[j]));
                    assert(!s.take(n as int).contains(nids[j]));
                }
                lemma_ids_total_frame(nids, self.drafts@, old_reg.drafts@);
            }
        }
        proof {
            assert(s.take(n as int) =~= s);
            assert(old_reg.first_delete_error(s, 0) is None) by {
                if n > 0 {
                    assert(old_reg.first_delete_error(s, 0) == old_reg.first_delete_error(s, n as int));
                }
            }
        }
        Ok(())
    }

    /// Removes group `g` with all its drafts and hands the drafts out, in the group's order.
    pub fn take_group_drafts(&mut self, g: DraftGroupIndex) -> (r: Vec<Draft>)
        requires
            old(self).wf(),
            old(self).group(g) is Some,
        ensures
            final(self).wf(),
            final(self).group(g) is None,
            forall|h: DraftGroupIndex| h != g ==> #[trigger] final(self).group(h) == old(self).group(h),
            final(self).draft_groups@.len() == old(self).draft_groups@.len(),
            drafts_total(r@) == old(self).group(g)->0.total_amount,
            r@.len() == old(self).group(g)->0.draft_indices@.len(),
            forall|k: int| 0 <= k < r@.len() ==> #[trigger] r@[k] == old(self).drafts@[old(self).group(
                g)->0.draft_indices@[k] as int]->0,
            forall|k: int| 0 <= k < r@.len() ==> (#[trigger] r@[k]).schedule.wf(),
            final(self).drafts@.len() == old(self).drafts@.len(),
            forall|i: int| 0 <= i < final(self).drafts@.len() ==> #[trigger] final(self).drafts@[i]
                == if old(self).group(g)->0.draft_indices@.contains(i as DraftIndex) { None } else { old(self).drafts@[i] },
    {
        let ghost old_reg = *self;
        let ghost og = old_reg.group(g)->0;
        let ghost old_ids = og.draft_indices@;
        let gi = g as usize;
        let mut out: Vec<Draft> = Vec::new();
        let empty = match &self.draft_groups[gi] {
            Some(grp) => grp.draft_indices.len() == 0,
            None => true,
        };
        if empty {
            self.draft_groups.set(gi, None);
            proof {
                let groups = self.draft_groups@;
                assert(old_ids.len() == 0);
                assert forall|i: int| 0 <= i < self.drafts@.len() && #[trigger] self.drafts@[i] is Some
                    implies self.drafts@[i]->0.draft_group_id != g by {
                    let d = old_reg.drafts@[i]->0;
                    if d.draft_group_id == g {
                        assert(old_ids.contains(i as DraftIndex));
                    }
                }
                assert forall|h: int| #![trigger groups[h]] 0 <= h < groups.len() && h != gi implies groups[h]
                    == old_reg.draft_groups@[h] by {}
                assert forall|h: DraftGroupIndex| h != g implies #[trigger] self.group(h) == old_reg.group(h) by {
                    if h < groups.len() {
                        assert(groups[h as int] == old_reg.draft_groups@[h as int]);
                    }
                }
                assert(out@ =~= Seq::<Draft>::empty());
            }
            return out;
        }
        let n = match &self.draft_groups[gi] {
            Some(grp) => grp.draft_indices.len(),
            None => 0,
        };
        let mut k: usize = 0;
        while k < n
            invariant
                self.wf(),
                old_reg.wf(),
                n == old_ids.len(),
                n > 0,
                k <= n,
                old_reg.group(g) == Some(og),
                gi == g,
                old_ids == og.draft_indices@,
                out@.len() == k,
                forall|j: int| 0 <= j < k ==> #[trigger] out@[j] == old_reg.drafts@[old_ids[j] as int]->0,
                forall|j: int| 0 <= j < k ==> (#[trigger] out@[j]).schedule.wf(),
                k < n ==> (self.group(g) matches Some(grp) && grp.draft_indices@ == old_ids.subrange(k as int, n as int)
                    && grp.total_amount + drafts_total(out@) == og.total_amount),
                k == n ==> self.group(g) is None && drafts_total(out@) == og.total_amount,
                forall|h: DraftGroupIndex| h != g ==> #[trigger] self.group(h) == old_reg.group(h),
                self.draft_groups@.len() == old_reg.draft_groups@.len(),
                self.drafts@.len() == old_reg.drafts@.len(),
                forall|i: int| 0 <= i < self.drafts@.len() ==> #[trigger] self.drafts@[i]
                    == if old_ids.take(k as int).contains(i as DraftIndex) { None } else { old_reg.drafts@[i] },
            decreases n - k,
        {
            let id = match &self.draft_groups[gi] {
                Some(grp) => grp.draft_indices[0],
                None => {
                    assert(false);
                    0
                },
            };
            let ghost before = *self;
            proof {
                assert(id == old_ids[k as int]);
                let cur = self.group(g)->0.draft_indices@;
                assert(cur[0] == id);
                assert(id < self.drafts@.len() && self.drafts@[id as int] is Some);
                assert(!old_ids.take(k as int).contains(id)) by {
                    if old_ids.take(k as int).contains(id) {
                        let x = choose|x: int| 0 <= x < k && old_ids.take(k as int)[x] == id;
                        assert(old_ids[x] == old_ids[k as int]);
                    }
                }
            }
            let ghost before_out = out@;
            let d = self.remove_draft(id);
            out.push(d);
            k += 1;
            proof {
                assert(out@.drop_last() =~= before_out);
                assert(old_ids.take(k as int) =~= old_ids.take(k - 1).push(id));
                assert forall|i: int| 0 <= i < self.drafts@.len() implies #[trigger] self.drafts@[i]
                    == if old_ids.take(k as int).contains(i as DraftIndex) { None } else { old_reg.drafts@[i] } by {
                    if i == id {
                        assert(old_ids.take(k as int)[k - 1] == id);
                    } else {
                        assert(self.drafts@[i] == before.drafts@[i]);
                    }
                }
                assert forall|j: int| 0 <= j < k implies #[trigger] out@[j] == old_reg.drafts@[old_ids[j] as int]->0 by {
                    if j == k - 1 {
                        assert(before.drafts@[id as int] == old_reg.drafts@[id as int]);
                    }
                }
                if k < n {
                    assert(old_ids.subrange(k - 1, n as int).drop_first() =~= old_ids.subrange(k as int, n as int));
                    assert(self.group(g) is Some) by {
                        if self.group(g) is None {
                            assert(before.group(g)->0.draft_indices@ == seq![id]);
                        }
                    }
                } else {
                    assert(self.group(g) is None) by {
                        if self.group(g) is Some {
                            assert(before.group(g)->0.draft_indices@.len() == 1);
                        }
                    }
                }
            }
        }
        out
    }
}


/// In every valid registry, which every operation keeps, a draft group's total is the sum of
/// the grant sizes of its current drafts.
pub proof fn lemma_group_total_is_sum(reg: DraftRegistry, g: DraftGroupIndex)
    requires
        reg.wf(),
        reg.group(g) is Some,
    ensures
        reg.group(g)->0.total_amount == ids_total(reg.group(g)->0.draft_indices@, reg.drafts@),
{
    assert(reg.draft_groups@[g as int] is Some);
}

proof fn lemma_first_delete_error_reaches(reg: DraftRegistry, ids: Seq<DraftIndex>, j: int, k: int)
    requires
        0 <= j <= k < ids.len(),
        reg.delete_error(ids, k) is Some,
    ensures
        reg.first_delete_error(ids, j) is Some,
        (forall|x: int| j <= x < k ==> #[trigger] reg.delete_error(ids, x) is None) ==> reg.first_delete_error(ids, j)
            == reg.delete_error(ids, k),
    decreases k - j,
{
    if j < k {
        lemma_first_delete_error_reaches(reg, ids, j + 1, k);
    }
}

/// Deleting a draft whose group is still pending fails: the batch is refused, with
/// `InvalidState` when no id before it is refused.
pub proof fn lemma_delete_from_pending_fails(reg: DraftRegistry, ids: Seq<DraftIndex>, k: int)
    requires
        reg.wf(),
        0 <= k < ids.len(),
        ids[k] < reg.drafts@.len(),
        reg.drafts@[ids[k] as int] matches Some(d) && reg.group(d.draft_group_id) matches Some(g) && g.state
            == DraftGroupState::Pending,
    ensures
        reg.first_delete_error(ids, 0) is Some,
        (forall|x: int| 0 <= x < k ==> #[trigger] reg.delete_error(ids, x) is None) ==> reg.first_delete_error(ids, 0)
            == Some(LockupError::InvalidState),
{
    if (forall|x: int| 0 <= x < k ==> #[trigger] reg.delete_error(ids, x) is None) {
        assert(!ids.take(k).contains(ids[k])) by {
            if ids.take(k).contains(ids[k]) {
                let x = choose|x: int| 0 <= x < k && ids.take(k)[x] == ids[k];
                assert(reg.delete_error(ids, x) is None);
                assert(ids[x] == ids[k]);
            }
        }
        assert(reg.delete_error(ids, k) == Some(LockupError::InvalidState));
    }
    lemma_first_delete_error_reaches(reg, ids, 0, k);
}

} // verus!
