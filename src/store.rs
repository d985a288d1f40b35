use vstd::prelude::*;

use crate::lockup::{AccountId, Lockup, LockupError, LockupIndex};

verus! {

/// The lockups one account owns.
#[derive(Debug)]
pub struct AccountLockups {
    pub account_id: AccountId,
    pub lockup_ids: Vec<LockupIndex>,
}

/// Committed lockups, in order of creation, and the index from account to the positions
/// it owns.
#[derive(Debug)]
pub struct LockupStore {
    pub lockups: Vec<Lockup>,
    pub account_lockups: Vec<AccountLockups>,
}

/// Taking a drained position out of the index keeps the store valid.
proof fn lemma_index_drained(before: LockupStore, after: LockupStore, index: LockupIndex)
    requires
        before.wf(),
        after.index_wf(),
        after.lockups@ == before.lockups@,
        index < before.lockups@.len(),
        before.lockups@[index as int].schedule.spec_total() == 0,
        forall|acc: Seq<char>| #[trigger] after.owned(acc) == before.owned(acc).remove(index),
    ensures
        after.wf(),
{
    assert forall|i: int|
        #![trigger after.lockups@[i]]
        0 <= i < after.lockups@.len() && after.lockups@[i].schedule.spec_total() > 0 implies after.owned(
            after.lockups@[i].account_id@,
        ).contains(i as LockupIndex) by {
        assert(before.lockups@[i] == after.lockups@[i]);
        assert(after.owned(after.lockups@[i].account_id@) == before.owned(after.lockups@[i].account_id@).remove(index));
    }
}

impl LockupStore {
    /// Every lockup is valid; accounts in the index are distinct; each entry is non-empty,
    /// holds distinct positions, and only positions that the account owns; every lockup with
    /// something left to unlock is indexed under its owner.
    pub open spec fn wf(&self) -> bool {
        &&& self.index_wf()
        &&& forall|i: int|
            #![trigger self.lockups@[i]]
            0 <= i < self.lockups@.len() && self.lockups@[i].schedule.spec_total() > 0 ==> self.owned(
                self.lockups@[i].account_id@,
            ).contains(i as LockupIndex)
    }

    /// The index part of `wf`: what holds of every entry.
    pub open spec fn index_wf(&self) -> bool {
        &&& self.lockups@.len() <= u32::MAX
        &&& forall|i: int| 0 <= i < self.lockups@.len() ==> #[trigger] self.lockups@[i].wf()
        &&& forall|a: int, b: int|
            #![trigger self.account_lockups@[a], self.account_lockups@[b]]
            0 <= a < b < self.account_lockups@.len() ==> self.account_lockups@[a].account_id@
                != self.account_lockups@[b].account_id@
        &&& forall|a: int|
            #![trigger self.account_lockups@[a]]
            0 <= a < self.account_lockups@.len() ==> {
                let e = self.account_lockups@[a];
                &&& e.lockup_ids@.len() > 0
                &&& e.lockup_ids@.no_duplicates()
                &&& forall|k: int|
                    #![trigger e.lockup_ids@[k]]
                    0 <= k < e.lockup_ids@.len() ==> e.lockup_ids@[k] < self.lockups@.len()
                        && self.lockups@[e.lockup_ids@[k] as int].account_id@ == e.account_id@
            }
    }

    /// Does the index hold an entry for `acc`?
    pub open spec fn has_entry(&self, acc: Seq<char>) -> bool {
        exists|a: int|
            0 <= a < self.account_lockups@.len() && #[trigger] self.account_lockups@[a].account_id@
                == acc
    }

    /// The positions that `acc` owns according to the index.
    pub open spec fn owned(&self, acc: Seq<char>) -> Set<LockupIndex> {
        if self.has_entry(acc) {
            let a = choose|a: int|
                0 <= a < self.account_lockups@.len()
                    && #[trigger] self.account_lockups@[a].account_id@ == acc;
            self.account_lockups@[a].lockup_ids@.to_set()
        } else {
            Set::empty()
        }
    }

    pub open spec fn len(&self) -> nat {
        self.lockups@.len()
    }

    proof fn lemma_owned_entry(&self, a: int)
        requires
            self.index_wf(),
            0 <= a < self.account_lockups@.len(),
        ensures
            self.owned(self.account_lockups@[a].account_id@)
                == self.account_lockups@[a].lockup_ids@.to_set(),
    {
        let acc = self.account_lockups@[a].account_id@;
        assert(self.has_entry(acc));
        let b = choose|b: int|
            0 <= b < self.account_lockups@.len() && #[trigger] self.account_lockups@[b].account_id@
                == acc;
        if a < b {
            assert(self.account_lockups@[a].account_id@ != self.account_lockups@[b].account_id@);
        } else if b < a {
            assert(self.account_lockups@[b].account_id@ != self.account_lockups@[a].account_id@);
        }
    }

    /// A store with no lockups.
    pub fn new() -> (r: LockupStore)
        ensures
            r.wf(),
            r.len() == 0,
            forall|acc: Seq<char>| r.owned(acc) == Set::<LockupIndex>::empty(),
    {
        LockupStore { lockups: Vec::new(), account_lockups: Vec::new() }
    }

    /// Position of the index entry of `account_id`, if there is one.
    pub fn find_account(&self, account_id: &AccountId) -> (r: Option<usize>)
        ensures
            match r {
                Some(a) => a < self.account_lockups@.len() && self.account_lockups@[a as int].account_id@
                    == account_id@,
                None => !self.has_entry(account_id@),
            },
    {
        let mut a: usize = 0;
        while a < self.account_lockups.len()
            invariant
                a <= self.account_lockups@.len(),
                forall|b: int| 0 <= b < a ==> #[trigger] self.account_lockups@[b].account_id@ != account_id@,
            decreases self.account_lockups@.len() - a,
        {
            if self.account_lockups[a].account_id == *account_id {
                return Some(a);
            }
            a += 1;
        }
        None
    }

    /// The positions `account_id` owns, each once; empty when it owns none.
    pub fn lockups_for(&self, account_id: &AccountId) -> (r: Vec<LockupIndex>)
        requires
            self.wf(),
        ensures
            r@.to_set() == self.owned(account_id@),
            r@.no_duplicates(),
            forall|k: int| 0 <= k < r@.len() ==> #[trigger] r@[k] < self.len(),
    {
        match self.find_account(account_id) {
            None => {
                assert(Seq::<LockupIndex>::empty().to_set() =~= Set::<LockupIndex>::empty());
                Vec::new()
            },
            Some(a) => {
                proof {
                    self.lemma_owned_entry(a as int);
                }
                let ids = &self.account_lockups[a].lockup_ids;
                let mut r: Vec<LockupIndex> = Vec::new();
                let mut k: usize = 0;
                while k < ids.len()
                    invariant
                        k <= ids@.len(),
                        r@ == ids@.take(k as int),
                decreases ids@.len() - k,
                {
                    r.push(ids[k]);
                    k += 1;
                    assert(r@ =~= ids@.take(k as int));
                }
                assert(ids@.take(k as int) =~= ids@);
                assert(self.account_lockups@[a as int].lockup_ids@ == ids@);
                r
            },
        }
    }

    /// Checks that `account_id` owns every position in `ids`.
    pub fn lockups_by_id(&self, account_id: &AccountId, ids: &Vec<LockupIndex>) -> (r: Result<
        Vec<LockupIndex>,
        LockupError,
    >)
        requires
            self.wf(),
        ensures
            match r {
                Ok(v) => v@ == ids@ && forall|k: int|
                    0 <= k < ids@.len() ==> self.owned(account_id@).contains(#[trigger] ids@[k]),
                Err(e) => e == LockupError::NotFound && exists|k: int|
                    0 <= k < ids@.len() && !self.owned(account_id@).contains(#[trigger] ids@[k]),
            },
            r is Ok ==> forall|k: int| 0 <= k < ids@.len() ==> #[trigger] ids@[k] < self.len(),
    {
        let owned = self.lockups_for(account_id);
        let mut k: usize = 0;
        while k < ids.len()
            invariant
                self.wf(),
                k <= ids@.len(),
                owned@.to_set() == self.owned(account_id@),
                forall|j: int| 0 <= j < owned@.len() ==> #[trigger] owned@[j] < self.len(),
                forall|j: int|
                    0 <= j < k ==> self.owned(account_id@).contains(#[trigger] ids@[j]) && ids@[j]
                        < self.len(),
            decreases ids@.len() - k,
        {
            let id = ids[k];
            let mut found = false;
            let mut m: usize = 0;
            while m < owned.len()
                invariant
                    m <= owned@.len(),
                    found <==> exists|j: int| 0 <= j < m && owned@[j] == id,
                decreases owned@.len() - m,
            {
                if owned[m] == id {
                    found = true;
                }
                m += 1;
            }
            if !found {
                assert(!owned@.contains(id));
                return Err(LockupError::NotFound);
            }
            assert(owned@.contains(id));
            k += 1;
        }
        let mut v: Vec<LockupIndex> = Vec::new();
        let mut j: usize = 0;
        while j < ids.len()
            invariant
                j <= ids@.len(),
                v@ == ids@.take(j as int),
            decreases ids@.len() - j,
        {
            v.push(ids[j]);
            j += 1;
            assert(v@ =~= ids@.take(j as int));
        }
        assert(ids@.take(j as int) =~= ids@);
        Ok(v)
    }

    /// Appends `lockup` at the next position and records it under its owner.
    pub fn add(&mut self, lockup: Lockup) -> (r: Result<LockupIndex, LockupError>)
        requires
            old(self).wf(),
            lockup.wf(),
        ensures
            final(self).wf(),
            match r {
                Ok(i) => {
                    &&& i == old(self).len()
                    &&& final(self).lockups@ == old(self).lockups@.push(lockup)
                    &&& forall|acc: Seq<char>|
                        #[trigger] final(self).owned(acc) == if acc == lockup.account_id@ {
                            old(self).owned(acc).insert(i)
                        } else {
                            old(self).owned(acc)
                        }
                },
                Err(e) => e == LockupError::Overflow && old(self).len() == u32::MAX && *final(self)
                    == *old(self),
            },
    {
        let n = self.lockups.len();
        if n >= 4294967295usize {
            return Err(LockupError::Overflow);
        }
        let index = n as u32;
        let ghost old_store = *self;
        let ghost owner = lockup.account_id@;
        let found = self.find_account(&lockup.account_id);
        self.lockups.push(lockup);
        match found {
            Some(a) => {
                self.account_lockups[a].lockup_ids.push(index);
            },
            None => {
                let mut ids: Vec<LockupIndex> = Vec::new();
                ids.push(index);
                let acc = self.lockups[n].account_id.clone();
                self.account_lockups.push(AccountLockups { account_id: acc, lockup_ids: ids });
            },
        }
        proof {
            let old_entries = old_store.account_lockups@;
            let entries = self.account_lockups@;
            assert forall|i: int| 0 <= i < self.lockups@.len() implies #[trigger] self.lockups@[i].wf() by {
                if i < n {
                    assert(self.lockups@[i] == old_store.lockups@[i]);
                }
            }
            assert forall|a: int|
                #![trigger entries[a]]
                0 <= a < entries.len() implies {
                    let e = entries[a];
                    &&& e.lockup_ids@.len() > 0
                    &&& e.lockup_ids@.no_duplicates()
                    &&& forall|k: int|
                        #![trigger e.lockup_ids@[k]]
                        0 <= k < e.lockup_ids@.len() ==> e.lockup_ids@[k] < self.lockups@.len()
                            && self.lockups@[e.lockup_ids@[k] as int].account_id@ == e.account_id@
                } by {
                let e = entries[a];
                if a < old_entries.len() {
                    let oe = old_entries[a];
                    assert forall|k: int| 0 <= k < oe.lockup_ids@.len() implies #[trigger] oe.lockup_ids@[k]
                        < n && self.lockups@[oe.lockup_ids@[k] as int].account_id@ == oe.account_id@ by {
                        assert(self.lockups@[oe.lockup_ids@[k] as int] == old_store.lockups@[oe.lockup_ids@[k] as int]);
                    }
                    if found is Some && found->0 as int == a {
                        assert(e.lockup_ids@ == oe.lockup_ids@.push(index));
                        assert forall|x: int, y: int| 0 <= x < y < e.lockup_ids@.len() implies e.lockup_ids@[x]
                            != e.lockup_ids@[y] by {
                            if y == oe.lockup_ids@.len() {
                                assert(oe.lockup_ids@[x] < n);
                            } else {
                                assert(oe.lockup_ids@.no_duplicates());
                            }
                        }
                    } else {
                        assert(e == oe);
                    }
                } else {
                    assert(e.lockup_ids@ =~= seq![index]);
                }
            }
            assert forall|x: int, y: int|
                #![trigger entries[x], entries[y]]
                0 <= x < y < entries.len() implies entries[x].account_id@ != entries[y].account_id@ by {
                if y < old_entries.len() {
                    assert(entries[x].account_id@ == old_entries[x].account_id@);
                    assert(entries[y].account_id@ == old_entries[y].account_id@);
                } else {
                    assert(entries[x].account_id@ == old_entries[x].account_id@);
                }
            }
            assert(self.index_wf());
            assert forall|acc: Seq<char>|
                #[trigger] self.owned(acc) == if acc == owner {
                    old_store.owned(acc).insert(index)
                } else {
                    old_store.owned(acc)
                } by {
                if self.has_entry(acc) {
                    let a = choose|a: int| 0 <= a < entries.len() && #[trigger] entries[a].account_id@ == acc;
                    self.lemma_owned_entry(a);
                    if a < old_entries.len() {
                        old_store.lemma_owned_entry(a);
                        if found is Some && found->0 as int == a {
                            assert(entries[a].lockup_ids@.to_set() =~= old_entries[a].lockup_ids@.push(index).to_set());
                            old_entries[a].lockup_ids@.lemma_push_to_set_commute(index);
                        } else {
                            assert(entries[a] == old_entries[a]);
                        }
                    } else {
                        assert(!old_store.has_entry(acc));
                        assert(entries[a].lockup_ids@.to_set() =~= Set::empty().insert(index)) by {
                            assert(entries[a].lockup_ids@ =~= seq![index]);
                            assert(entries[a].lockup_ids@[0] == index);
                        }
                    }
                } else {
                    assert(!old_store.has_entry(acc)) by {
                        if old_store.has_entry(acc) {
                            let a = choose|a: int| 0 <= a < old_entries.len() && #[trigger] old_entries[a].account_id@ == acc;
                            assert(entries[a].account_id@ == acc);
                        }
                    }
                    if acc == owner {
                        if found is Some {
                            assert(entries[found->0 as int].account_id@ == acc);
                        } else {
                            assert(entries[entries.len() - 1].account_id@ == acc);
                        }
                    }
                }
            }
            assert forall|i: int|
                #![trigger self.lockups@[i]]
                0 <= i < self.lockups@.len() && self.lockups@[i].schedule.spec_total() > 0 implies self.owned(
                    self.lockups@[i].account_id@,
                ).contains(i as LockupIndex) by {
                let acc = self.lockups@[i].account_id@;
                assert(self.owned(acc) == if acc == owner {
                    old_store.owned(acc).insert(index)
                } else {
                    old_store.owned(acc)
                });
                if i < n {
                    assert(self.lockups@[i] == old_store.lockups@[i]);
                }
            }
        }
        Ok(index)
    }

    /// Takes position `index` out of its owner's entry, and drops the entry once empty.
    pub fn remove_from_index(&mut self, index: LockupIndex)
        requires
            old(self).wf(),
            index < old(self).len(),
            old(self).lockups@[index as int].schedule.spec_total() == 0,
        ensures
            final(self).wf(),
            final(self).lockups@ == old(self).lockups@,
            forall|acc: Seq<char>| #[trigger] final(self).owned(acc) == old(self).owned(acc).remove(index),
    {
        let ghost old_store = *self;
        let owner = self.lockups[index as usize].account_id.clone();
        let found = self.find_account(&owner);
        proof {
            assert forall|acc: Seq<char>| acc != owner@ implies !#[trigger] old_store.owned(acc).contains(index) by {
                if old_store.has_entry(acc) {
                    let b = choose|b: int| 0 <= b < old_store.account_lockups@.len()
                        && #[trigger] old_store.account_lockups@[b].account_id@ == acc;
                    let e = old_store.account_lockups@[b];
                    if e.lockup_ids@.contains(index) {
                        let k = choose|k: int| 0 <= k < e.lockup_ids@.len() && e.lockup_ids@[k] == index;
                        assert(self.lockups@[e.lockup_ids@[k] as int].account_id@ == e.account_id@);
                    }
                }
            }
        }
        match found {
            None => {
                proof {
                    assert forall|acc: Seq<char>| #[trigger] self.owned(acc) == old_store.owned(acc).remove(index) by {
                        if acc == owner@ {
                            assert(old_store.owned(acc) =~= Set::empty());
                        } else {
                            assert(old_store.owned(acc).remove(index) =~= old_store.owned(acc));
                        }
                    }
                }
            },
            Some(a) => {
                proof {
                    old_store.lemma_owned_entry(a as int);
                }
                let mut k: usize = 0;
                let n = self.account_lockups[a].lockup_ids.len();
                while k < n && self.account_lockups[a].lockup_ids[k] != index
                    invariant
                        *self == old_store,
                        a < self.account_lockups@.len(),
                        n == self.account_lockups@[a as int].lockup_ids@.len(),
                        k <= n,
                        forall|j: int| 0 <= j < k ==> #[trigger] self.account_lockups@[a as int].lockup_ids@[j] != index,
                    decreases n - k,
                {
                    k += 1;
                }
                let ghost ids = old_store.account_lockups@[a as int].lockup_ids@;
                if k == n {
                    proof {
                        assert(!ids.contains(index));
                        assert forall|acc: Seq<char>| #[trigger] self.owned(acc) == old_store.owned(acc).remove(index) by {
                            assert(old_store.owned(acc).remove(index) =~= old_store.owned(acc));
                        }
                    }
                    return;
                }
                self.account_lockups[a].lockup_ids.remove(k);
                proof {
                    let nids = self.account_lockups@[a as int].lockup_ids@;
                    assert(nids == ids.remove(k as int));
                    assert(nids.no_duplicates()) by {
                        assert forall|x: int, y: int| 0 <= x < y < nids.len() implies nids[x] != nids[y] by {
                            let ox = if x < k { x } else { x + 1 };
                            let oy = if y < k { y } else { y + 1 };
                            assert(nids[x] == ids[ox] && nids[y] == ids[oy]);
                        }
                    }
                    assert(nids.to_set() =~= ids.to_set().remove(index)) by {
                        assert forall|v: LockupIndex| nids.contains(v) implies ids.contains(v) && v != index by {
                            let x = choose|x: int| 0 <= x < nids.len() && nids[x] == v;
                            let ox = if x < k { x } else { x + 1 };
                            assert(ids[ox] == v);
                        }
                        assert forall|v: LockupIndex| ids.contains(v) && v != index implies nids.contains(v) by {
                            let x = choose|x: int| 0 <= x < ids.len() && ids[x] == v;
                            if x < k {
                                assert(nids[x] == v);
                            } else {
                                assert(x != k);
                                assert(nids[x - 1] == v);
                            }
                        }
                    }
                    assert forall|j: int| 0 <= j < nids.len() implies #[trigger] nids[j] < self.lockups@.len()
                        && self.lockups@[nids[j] as int].account_id@ == owner@ by {
                        let oj = if j < k { j } else { j + 1 };
                        assert(nids[j] == ids[oj]);
                    }
                }
                if self.account_lockups[a].lockup_ids.len() == 0 {
                    let ghost mid = self.account_lockups@;
                    self.account_lockups.remove(a);
                    proof {
                        let entries = self.account_lockups@;
                        assert(entries == mid.remove(a as int));
                        assert forall|x: int, y: int|
                            #![trigger entries[x], entries[y]]
                            0 <= x < y < entries.len() implies entries[x].account_id@ != entries[y].account_id@ by {
                            let ox = if x < a { x } else { x + 1 };
                            let oy = if y < a { y } else { y + 1 };
                            assert(entries[x] == mid[ox] && entries[y] == mid[oy]);
                            assert(old_store.account_lockups@[ox].account_id@ != old_store.account_lockups@[oy].account_id@);
                        }
                        assert forall|x: int| #![trigger entries[x]] 0 <= x < entries.len() implies entries[x]
                            == old_store.account_lockups@[if x < a { x } else { x + 1 }] by {}
                        assert(self.index_wf());
                        assert forall|acc: Seq<char>| #[trigger] self.owned(acc) == old_store.owned(acc).remove(index) by {
                            if acc == owner@ {
                                assert(!self.has_entry(acc)) by {
                                    if self.has_entry(acc) {
                                        let x = choose|x: int| 0 <= x < entries.len() && #[trigger] entries[x].account_id@ == acc;
                                        let ox = if x < a { x } else { x + 1 };
                                        assert(old_store.account_lockups@[ox].account_id@ == acc);
                                        if ox < a {
                                            assert(old_store.account_lockups@[ox].account_id@ != old_store.account_lockups@[a as int].account_id@);
                                        } else {
                                            assert(old_store.account_lockups@[a as int].account_id@ != old_store.account_lockups@[ox].account_id@);
                                        }
                                    }
                                }
                                assert(mid[a as int].lockup_ids@.to_set() =~= Set::empty());
                                assert(old_store.owned(acc).remove(index) =~= Set::empty());
                            } else {
                                assert(old_store.owned(acc).remove(index) =~= old_store.owned(acc));
                                if self.has_entry(acc) {
                                    let x = choose|x: int| 0 <= x < entries.len() && #[trigger] entries[x].account_id@ == acc;
                                    self.lemma_owned_entry(x);
                                    old_store.lemma_owned_entry(if x < a { x } else { x + 1 });
                                } else {
                                    if old_store.has_entry(acc) {
                                        let ox = choose|ox: int| 0 <= ox < old_store.account_lockups@.len()
                                            && #[trigger] old_store.account_lockups@[ox].account_id@ == acc;
                                        let x = if ox < a { ox } else { ox - 1 };
                                        assert(entries[x].account_id@ == acc);
                                    }
                                }
                            }
                        }
                    }
                } else {
                    proof {
                        let entries = self.account_lockups@;
                        assert forall|x: int| #![trigger entries[x]] 0 <= x < entries.len() && x != a implies entries[x]
                            == old_store.account_lockups@[x] by {}
                        assert(self.index_wf());
                        assert forall|acc: Seq<char>| #[trigger] self.owned(acc) == old_store.owned(acc).remove(index) by {
                            if self.has_entry(acc) {
                                let x = choose|x: int| 0 <= x < entries.len() && #[trigger] entries[x].account_id@ == acc;
                                self.lemma_owned_entry(x);
                                old_store.lemma_owned_entry(x);
                                if x != a {
                                    assert(old_store.owned(acc).remove(index) =~= old_store.owned(acc));
                                }
                            } else {
                                assert(old_store.account_lockups@[a as int].account_id@ == entries[a as int].account_id@);
                                assert(acc != owner@);
                                assert(old_store.owned(acc).remove(index) =~= old_store.owned(acc));
                                if old_store.has_entry(acc) {
                                    let ox = choose|ox: int| 0 <= ox < old_store.account_lockups@.len()
                                        && #[trigger] old_store.account_lockups@[ox].account_id@ == acc;
                                    assert(entries[ox].account_id@ == acc);
                                }
                            }
                        }
                    }
                }
                proof {
                    lemma_index_drained(old_store, *self, index);
                }
            },
        }
    }
}

} // verus!
