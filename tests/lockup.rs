use hodl_lockup::contract::Contract;
use hodl_lockup::draft::{Draft, DraftGroupState, DraftRegistry};
use hodl_lockup::lockup::{Lockup, LockupError, TerminationConfig, VestingConditions};
use hodl_lockup::schedule::{Checkpoint, Schedule};
use hodl_lockup::settlement::LockupClaim;
use hodl_lockup::store::LockupStore;

fn schedule(points: &[(u32, u128)]) -> Schedule {
    Schedule(
        points
            .iter()
            .map(|&(timestamp, balance)| Checkpoint { timestamp, balance })
            .collect(),
    )
}

fn step_schedule() -> Schedule {
    schedule(&[(0, 0), (100, 1000), (200, 1000)])
}

fn acc(s: &str) -> String {
    s.to_string()
}

fn contract() -> Contract {
    Contract::new(acc("token.near"), vec![acc("admin.near")], Some(vec![acc("ops.near")]), acc("manager.near"))
}

fn draft(group: u32, owner: &str, s: Schedule, terminable: bool) -> Draft {
    Draft {
        draft_group_id: group,
        account_id: acc(owner),
        schedule: s,
        vesting_schedule: if terminable { Some(VestingConditions::SameAsLockupSchedule) } else { None },
    }
}

/// A contract holding funded lockups for `owner` with the given schedules.
fn funded(owner: &str, schedules: Vec<Schedule>) -> (Contract, Vec<u32>) {
    let mut c = contract();
    let g = c.create_draft_group(&acc("admin.near")).unwrap();
    let mut total = 0u128;
    let mut drafts = vec![];
    for s in schedules {
        total += s.total_balance();
        drafts.push(draft(g, owner, s, true));
    }
    c.create_drafts(&acc("admin.near"), drafts).unwrap();
    let ids = c.fund_draft_group(&acc("admin.near"), g, total).unwrap();
    (c, ids)
}

#[test]
fn schedule_step_scenario() {
    let s = step_schedule();
    assert_eq!(s.unlocked_balance(50), 0);
    assert_eq!(s.unlocked_balance(150), 1000);
    assert_eq!(s.unlocked_balance(250), 1000);
    assert_eq!(s.total_balance(), 1000);
}

#[test]
fn schedule_is_monotonic_and_bounded() {
    let s = schedule(&[(10, 5), (20, 50), (20, 60), (40, 90)]);
    let mut prev = 0;
    for t in 0..60u32 {
        let u = s.unlocked_balance(t);
        assert!(u >= prev);
        assert!(u <= s.total_balance());
        prev = u;
    }
    assert_eq!(s.unlocked_balance(0), 5);
    assert_eq!(s.unlocked_balance(20), 60);
    assert_eq!(s.unlocked_balance(39), 60);
    assert_eq!(s.unlocked_balance(40), 90);
}

#[test]
fn schedule_validity() {
    assert!(step_schedule().is_valid());
    assert!(!schedule(&[]).is_valid());
    assert!(!schedule(&[(10, 5), (5, 6)]).is_valid());
    assert!(!schedule(&[(10, 5), (20, 4)]).is_valid());
}

#[test]
fn schedule_terminate_caps_curve() {
    let mut s = schedule(&[(0, 0), (100, 400), (200, 1000)]);
    s.terminate(400, 150);
    assert!(s.is_valid());
    assert_eq!(s.total_balance(), 400);
    assert_eq!(s.unlocked_balance(50), 0);
    assert_eq!(s.unlocked_balance(120), 400);
    assert_eq!(s.unlocked_balance(150), 400);
    assert_eq!(s.unlocked_balance(500), 400);
}

#[test]
fn lockup_claim_scenario() {
    let (mut c, _) = funded("alice.near", vec![step_schedule()]);
    let s = c.claim(&acc("alice.near"), None, 150).unwrap();
    assert_eq!(s.total, 1000);
    assert_eq!(s.claims, vec![LockupClaim { index: 0, claim_amount: 1000 }]);
    let s = c.claim(&acc("alice.near"), None, 150).unwrap();
    assert_eq!(s.total, 0);
    assert!(s.claims.is_empty());
}

#[test]
fn lockup_claim_caps_and_accumulates() {
    let mut l = Lockup {
        account_id: acc("alice.near"),
        schedule: step_schedule(),
        claimed_balance: 0,
        termination_config: None,
    };
    assert_eq!(l.claim(300, 150), 300);
    assert_eq!(l.claimed_balance, 300);
    assert_eq!(l.claim(5000, 150), 700);
    assert_eq!(l.claimed_balance, 1000);
    assert_eq!(l.claim(1, 300), 0);
    assert_eq!(l.claim(10, 50), 0);
    assert!(l.claimed_balance <= l.schedule.unlocked_balance(150));
}

#[test]
fn terminate_before_vesting_scenario() {
    let mut l = Lockup {
        account_id: acc("alice.near"),
        schedule: schedule(&[(0, 0), (100, 1000)]),
        claimed_balance: 0,
        termination_config: Some(TerminationConfig {
            beneficiary_id: acc("admin.near"),
            vesting_schedule: VestingConditions::SameAsLockupSchedule,
        }),
    };
    let (unvested, beneficiary) = l.terminate(50, 50).unwrap();
    assert_eq!(unvested, 1000);
    assert_eq!(beneficiary, "admin.near");
    assert_eq!(l.schedule.unlocked_balance(200), 0);
    assert_eq!(l.schedule.total_balance(), 0);
    assert!(l.termination_config.is_none());
}

#[test]
fn terminate_twice_fails() {
    let (mut c, ids) = funded("alice.near", vec![step_schedule()]);
    let s = c.terminate(&acc("admin.near"), ids[0], Some(150), 120).unwrap();
    assert_eq!(s.unvested_balance, 0);
    assert_eq!(
        c.terminate(&acc("admin.near"), ids[0], Some(150), 120).unwrap_err(),
        LockupError::AlreadyTerminated
    );
    assert_eq!(c.terminate(&acc("admin.near"), ids[0], None, 500).unwrap_err(), LockupError::AlreadyTerminated);
}

#[test]
fn terminate_in_the_past_fails() {
    let (mut c, ids) = funded("alice.near", vec![step_schedule()]);
    assert_eq!(c.terminate(&acc("admin.near"), ids[0], Some(10), 20).unwrap_err(), LockupError::InvalidTimestamp);
    assert_eq!(c.terminate(&acc("alice.near"), ids[0], None, 20).unwrap_err(), LockupError::Unauthorized);
    assert_eq!(c.terminate(&acc("admin.near"), 7, None, 20).unwrap_err(), LockupError::NotFound);
}

#[test]
fn terminate_with_alternate_schedule() {
    let mut l = Lockup {
        account_id: acc("alice.near"),
        schedule: schedule(&[(0, 0), (100, 1000)]),
        claimed_balance: 0,
        termination_config: Some(TerminationConfig {
            beneficiary_id: acc("admin.near"),
            vesting_schedule: VestingConditions::Schedule(schedule(&[(0, 0), (50, 250), (100, 1000)])),
        }),
    };
    let (unvested, _) = l.terminate(60, 60).unwrap();
    assert_eq!(unvested, 750);
    assert_eq!(l.schedule.total_balance(), 250);
    assert_eq!(l.schedule.unlocked_balance(1000), 250);
}

#[test]
fn terminate_drained_lockup_leaves_index() {
    let (mut c, ids) = funded("alice.near", vec![step_schedule(), step_schedule()]);
    let s = c.terminate(&acc("admin.near"), ids[0], Some(50), 50).unwrap();
    assert_eq!(s.unvested_balance, 1000);
    assert_eq!(s.beneficiary_id, "admin.near");
    assert_eq!(c.store.lockups_for(&acc("alice.near")), vec![ids[1]]);
    let s = c.terminate(&acc("admin.near"), ids[1], Some(50), 50).unwrap();
    assert_eq!(s.unvested_balance, 1000);
    assert!(c.store.lockups_for(&acc("alice.near")).is_empty());
    assert!(c.store.account_lockups.is_empty());
}

#[test]
fn failed_transfer_rolls_back_both_lockups() {
    let (mut c, ids) = funded("alice.near", vec![step_schedule(), schedule(&[(0, 0), (100, 500)])]);
    let s = c.claim(&acc("alice.near"), Some(vec![(ids[0], None), (ids[1], Some(200))]), 150).unwrap();
    assert_eq!(s.total, 1200);
    assert_eq!(c.store.lockups[0].claimed_balance, 1000);
    assert_eq!(c.store.lockups[1].claimed_balance, 200);
    assert_eq!(c.after_ft_transfer(&s, false), 0);
    assert_eq!(c.store.lockups[0].claimed_balance, 0);
    assert_eq!(c.store.lockups[1].claimed_balance, 0);
}

#[test]
fn successful_transfer_keeps_claims() {
    let (mut c, ids) = funded("alice.near", vec![step_schedule()]);
    let s = c.claim(&acc("alice.near"), Some(vec![(ids[0], Some(400))]), 150).unwrap();
    assert_eq!(c.after_ft_transfer(&s, true), 400);
    assert_eq!(c.store.lockups[0].claimed_balance, 400);
}

#[test]
fn claim_errors() {
    let (mut c, ids) = funded("alice.near", vec![step_schedule()]);
    assert_eq!(c.claim(&acc("bob.near"), Some(vec![(ids[0], None)]), 150).unwrap_err(), LockupError::NotFound);
    assert_eq!(
        c.claim(&acc("alice.near"), Some(vec![(ids[0], None), (ids[0], Some(1))]), 150).unwrap_err(),
        LockupError::InvalidState
    );
    let s = c.claim(&acc("bob.near"), None, 150).unwrap();
    assert_eq!(s.total, 0);
    assert_eq!(c.store.lockups[0].claimed_balance, 0);
}

#[test]
fn claim_total_overflow() {
    let big = u128::MAX / 2 + 1;
    let mut store_contract = contract();
    for _ in 0..2 {
        let g = store_contract.create_draft_group(&acc("admin.near")).unwrap();
        store_contract
            .create_drafts(&acc("admin.near"), vec![draft(g, "alice.near", schedule(&[(0, big)]), false)])
            .unwrap();
        store_contract.fund_draft_group(&acc("admin.near"), g, big).unwrap();
    }
    assert_eq!(store_contract.claim(&acc("alice.near"), None, 10).unwrap_err(), LockupError::Overflow);
    assert_eq!(store_contract.store.lockups[0].claimed_balance, 0);
}

#[test]
fn draft_group_total_tracks_drafts() {
    let mut c = contract();
    let g = c.create_draft_group(&acc("ops.near")).unwrap();
    let ids = c
        .create_drafts(
            &acc("ops.near"),
            vec![
                draft(g, "alice.near", schedule(&[(0, 0), (10, 300)]), false),
                draft(g, "bob.near", schedule(&[(0, 700)]), false),
            ],
        )
        .unwrap();
    assert_eq!(ids, vec![0, 1]);
    let grp = c.registry.draft_groups[g as usize].as_ref().unwrap();
    assert_eq!(grp.total_amount, 1000);
    assert_eq!(grp.draft_indices, vec![0, 1]);
    c.discard_draft_group(&acc("ops.near"), g).unwrap();
    c.delete_drafts(vec![0]).unwrap();
    let grp = c.registry.draft_groups[g as usize].as_ref().unwrap();
    assert_eq!(grp.total_amount, 700);
    assert_eq!(grp.state, DraftGroupState::Discarded);
    c.delete_drafts(vec![1]).unwrap();
    assert!(c.registry.draft_groups[g as usize].is_none());
    assert!(c.registry.drafts.iter().all(|d| d.is_none()));
}

#[test]
fn fund_round_trip_keeps_total() {
    let mut c = contract();
    let g = c.create_draft_group(&acc("admin.near")).unwrap();
    c.create_drafts(
        &acc("admin.near"),
        vec![
            draft(g, "alice.near", schedule(&[(0, 0), (10, 300)]), true),
            draft(g, "bob.near", schedule(&[(5, 700)]), false),
        ],
    )
    .unwrap();
    assert_eq!(c.fund_draft_group(&acc("admin.near"), g, 999).unwrap_err(), LockupError::InvalidState);
    let ids = c.fund_draft_group(&acc("admin.near"), g, 1000).unwrap();
    assert_eq!(ids, vec![0, 1]);
    let sum: u128 = c.store.lockups.iter().map(|l| l.schedule.total_balance()).sum();
    assert_eq!(sum, 1000);
    assert_eq!(c.store.lockups[0].account_id, "alice.near");
    assert_eq!(c.store.lockups[0].termination_config.as_ref().unwrap().beneficiary_id, "admin.near");
    assert!(c.store.lockups[1].termination_config.is_none());
    assert!(c.registry.draft_groups[g as usize].is_none());
    assert_eq!(c.store.lockups_for(&acc("bob.near")), vec![1]);
    assert_eq!(c.fund_draft_group(&acc("admin.near"), g, 1000).unwrap_err(), LockupError::NotFound);
}

#[test]
fn fund_requires_deposit_whitelist() {
    let mut c = contract();
    let g = c.create_draft_group(&acc("ops.near")).unwrap();
    assert_eq!(c.fund_draft_group(&acc("ops.near"), g, 0).unwrap_err(), LockupError::Unauthorized);
    assert_eq!(c.fund_draft_group(&acc("admin.near"), g, 0).unwrap(), Vec::<u32>::new());
}

#[test]
fn delete_from_pending_group_fails() {
    let mut c = contract();
    let g = c.create_draft_group(&acc("ops.near")).unwrap();
    let id = c.create_draft(&acc("ops.near"), draft(g, "alice.near", step_schedule(), false)).unwrap();
    assert_eq!(c.delete_drafts(vec![id]).unwrap_err(), LockupError::InvalidState);
    assert_eq!(c.delete_drafts(vec![id + 5]).unwrap_err(), LockupError::NotFound);
    assert!(c.registry.drafts[id as usize].is_some());
}

#[test]
fn delete_same_draft_twice_fails() {
    let mut c = contract();
    let g = c.create_draft_group(&acc("ops.near")).unwrap();
    let id = c.create_draft(&acc("ops.near"), draft(g, "alice.near", step_schedule(), false)).unwrap();
    c.discard_draft_group(&acc("ops.near"), g).unwrap();
    assert_eq!(c.delete_drafts(vec![id, id]).unwrap_err(), LockupError::NotFound);
    assert!(c.registry.drafts[id as usize].is_some());
}

#[test]
fn create_drafts_errors() {
    let mut c = contract();
    assert_eq!(c.create_draft_group(&acc("eve.near")).unwrap_err(), LockupError::Unauthorized);
    let g = c.create_draft_group(&acc("ops.near")).unwrap();
    assert_eq!(
        c.create_draft(&acc("ops.near"), draft(g + 1, "alice.near", step_schedule(), false)).unwrap_err(),
        LockupError::NotFound
    );
    assert_eq!(
        c.create_draft(&acc("ops.near"), draft(g, "alice.near", schedule(&[]), false)).unwrap_err(),
        LockupError::InvalidState
    );
    let big = schedule(&[(0, u128::MAX)]);
    assert_eq!(
        c.create_drafts(
            &acc("ops.near"),
            vec![draft(g, "alice.near", step_schedule(), false), draft(g, "bob.near", big, false)]
        )
        .unwrap_err(),
        LockupError::Overflow
    );
    assert!(c.registry.drafts.is_empty());
    assert_eq!(c.registry.draft_groups[g as usize].as_ref().unwrap().total_amount, 0);
    c.discard_draft_group(&acc("ops.near"), g).unwrap();
    assert!(c.registry.draft_groups[g as usize].is_none());
    assert_eq!(c.discard_draft_group(&acc("ops.near"), g).unwrap_err(), LockupError::NotFound);
}

#[test]
fn add_to_discarded_group_fails() {
    let mut c = contract();
    let g = c.create_draft_group(&acc("ops.near")).unwrap();
    c.create_draft(&acc("ops.near"), draft(g, "alice.near", step_schedule(), false)).unwrap();
    c.discard_draft_group(&acc("ops.near"), g).unwrap();
    assert_eq!(
        c.create_draft(&acc("ops.near"), draft(g, "bob.near", step_schedule(), false)).unwrap_err(),
        LockupError::InvalidState
    );
}

#[test]
fn whitelists() {
    let mut c = contract();
    assert_eq!(
        c.add_to_deposit_whitelist(&acc("ops.near"), Some(acc("x.near")), None).unwrap_err(),
        LockupError::Unauthorized
    );
    c.add_to_deposit_whitelist(&acc("admin.near"), Some(acc("x.near")), None).unwrap();
    assert!(c.assert_deposit_whitelist(&acc("x.near")).is_ok());
    assert_eq!(c.add_to_deposit_whitelist(&acc("admin.near"), None, None).unwrap_err(), LockupError::NotFound);
    c.remove_from_deposit_whitelist(&acc("x.near"), None, Some(vec![acc("admin.near")])).unwrap();
    assert!(c.assert_deposit_whitelist(&acc("admin.near")).is_err());
    assert_eq!(
        c.remove_from_deposit_whitelist(&acc("x.near"), Some(acc("x.near")), None).unwrap_err(),
        LockupError::InvalidState
    );
    assert!(c.assert_deposit_whitelist(&acc("x.near")).is_ok());
    c.add_to_draft_operators_whitelist(&acc("x.near"), vec![acc("y.near")]).unwrap();
    assert!(c.assert_draft_operators_whitelist(&acc("y.near")).is_ok());
    c.remove_from_draft_operators_whitelist(&acc("x.near"), vec![acc("y.near"), acc("ops.near")]).unwrap();
    assert!(c.assert_draft_operators_whitelist(&acc("y.near")).is_err());
    assert!(c.assert_draft_operators_whitelist(&acc("ops.near")).is_err());
    assert!(c.assert_account_can_update(&acc("manager.near")).is_ok());
    assert_eq!(c.assert_account_can_update(&acc("x.near")).unwrap_err(), LockupError::Unauthorized);
}

#[test]
fn store_index() {
    let mut store = LockupStore::new();
    let mk = |owner: &str| Lockup {
        account_id: acc(owner),
        schedule: step_schedule(),
        claimed_balance: 0,
        termination_config: None,
    };
    assert_eq!(store.add(mk("alice.near")).unwrap(), 0);
    assert_eq!(store.add(mk("bob.near")).unwrap(), 1);
    assert_eq!(store.add(mk("alice.near")).unwrap(), 2);
    assert_eq!(store.lockups_for(&acc("alice.near")), vec![0, 2]);
    assert!(store.lockups_for(&acc("carol.near")).is_empty());
    assert_eq!(store.lockups_by_id(&acc("alice.near"), &vec![2]).unwrap(), vec![2]);
    assert_eq!(store.lockups_by_id(&acc("alice.near"), &vec![1]).unwrap_err(), LockupError::NotFound);
    store.remove_from_index(0);
    assert_eq!(store.lockups_for(&acc("alice.near")), vec![2]);
    assert_eq!(store.find_account(&acc("bob.near")), Some(1));
}

#[test]
fn registry_starts_empty() {
    let mut r = DraftRegistry::new();
    assert_eq!(r.create_draft_group().unwrap(), 0);
    assert_eq!(r.create_draft_group().unwrap(), 1);
    assert!(r.take_group_drafts(1).is_empty());
    assert!(r.draft_groups[1].is_none());
}

#[test]
fn refused_requests_keep_configuration() {
    let (mut c, ids) = funded("alice.near", vec![step_schedule()]);
    assert_eq!(c.claim(&acc("bob.near"), Some(vec![(ids[0], None)]), 150).unwrap_err(), LockupError::NotFound);
    assert_eq!(c.terminate(&acc("alice.near"), ids[0], None, 20).unwrap_err(), LockupError::Unauthorized);
    assert_eq!(c.deposit_whitelist, vec![acc("admin.near")]);
    assert_eq!(c.draft_operators_whitelist, vec![acc("ops.near")]);
    assert_eq!(c.token_account_id, "token.near");
    assert_eq!(c.manager, "manager.near");
    assert_eq!(c.store.lockups[0].claimed_balance, 0);
    assert!(c.store.lockups[0].termination_config.is_some());
}

#[test]
fn terminate_after_full_vesting_keeps_schedule() {
    let (mut c, ids) = funded("alice.near", vec![step_schedule()]);
    let s = c.terminate(&acc("admin.near"), ids[0], None, 300).unwrap();
    assert_eq!(s.unvested_balance, 0);
    assert_eq!(s.termination_timestamp, 300);
    assert_eq!(c.store.lockups[0].schedule.0, step_schedule().0);
    assert_eq!(c.store.lockups_for(&acc("alice.near")), vec![ids[0]]);
}

#[test]
fn delete_from_one_group_leaves_others() {
    let mut c = contract();
    let g0 = c.create_draft_group(&acc("ops.near")).unwrap();
    let g1 = c.create_draft_group(&acc("ops.near")).unwrap();
    c.create_drafts(
        &acc("ops.near"),
        vec![
            draft(g0, "alice.near", schedule(&[(0, 100)]), false),
            draft(g1, "bob.near", schedule(&[(0, 200)]), false),
            draft(g0, "carol.near", schedule(&[(0, 300)]), false),
        ],
    )
    .unwrap();
    assert_eq!(c.registry.draft_groups[g0 as usize].as_ref().unwrap().total_amount, 400);
    c.discard_draft_group(&acc("ops.near"), g0).unwrap();
    c.delete_drafts(vec![2, 0]).unwrap();
    assert!(c.registry.draft_groups[g0 as usize].is_none());
    let other = c.registry.draft_groups[g1 as usize].as_ref().unwrap();
    assert_eq!(other.total_amount, 200);
    assert_eq!(other.draft_indices, vec![1]);
    assert_eq!(other.state, DraftGroupState::Pending);
}
