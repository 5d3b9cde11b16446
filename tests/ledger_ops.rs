use pension_ledger::identity::Identity;
use pension_ledger::instruction::Instruction;
use pension_ledger::ledger::{LedgerError, LedgerRecord, Outcome};

fn id(b: u8) -> Identity {
    Identity::new([b; 32])
}

fn snapshot(r: &LedgerRecord) -> (Identity, Vec<(Identity, u64)>, Vec<(Identity, u64)>, u64) {
    (r.owner, r.balances.clone(), r.plan.clone(), r.pool_total)
}

#[test]
fn fresh_record_is_empty() {
    let r = LedgerRecord::new(id(1));
    assert_eq!(r.get_owner(), id(1));
    assert_eq!(r.get_total_balance(), 0);
    assert_eq!(r.get_balance(&id(2)), 0);
    assert!(r.balances.is_empty() && r.plan.is_empty());
}

#[test]
fn scenario_contribute_plan_pay_and_foreign_owner_change() {
    let (o, a, p) = (id(1), id(2), id(3));
    let mut r = LedgerRecord::new(o);
    assert_eq!(r.contribute(&a, 100), Ok(()));
    assert_eq!(r.get_balance(&a), 100);
    assert_eq!(r.get_total_balance(), 100);
    assert_eq!(r.set_pension_plan(&a, 40), Ok(()));
    assert_eq!(r.get_balance(&a), 60);
    assert_eq!(r.plan, vec![(a, 40)]);
    assert_eq!(r.get_total_balance(), 100);
    assert_eq!(r.pay_pension(&a), Ok(()));
    assert_eq!(r.get_balance(&a), 100);
    assert_eq!(r.get_total_balance(), 60);
    assert_eq!(r.set_owner(&a, &p), Err(LedgerError::NotOwner));
    assert_eq!(r.get_owner(), o);
}

#[test]
fn contribute_adds_to_balance_and_pool() {
    let mut r = LedgerRecord::new(id(1));
    assert_eq!(r.contribute(&id(2), 5), Ok(()));
    assert_eq!(r.contribute(&id(2), 7), Ok(()));
    assert_eq!(r.contribute(&id(3), 1), Ok(()));
    assert_eq!(r.get_balance(&id(2)), 12);
    assert_eq!(r.get_balance(&id(3)), 1);
    assert_eq!(r.get_total_balance(), 13);
    assert_eq!(r.balances.len(), 2);
}

#[test]
fn contribute_zero_fails_without_change() {
    let mut r = LedgerRecord::new(id(1));
    r.contribute(&id(2), 9).unwrap();
    let before = snapshot(&r);
    assert_eq!(r.contribute(&id(2), 0), Err(LedgerError::ZeroAmount));
    assert_eq!(snapshot(&r), before);
}

#[test]
fn contribute_overflow_fails_without_change() {
    let mut r = LedgerRecord::new(id(1));
    r.contribute(&id(2), u64::MAX).unwrap();
    let before = snapshot(&r);
    assert_eq!(r.contribute(&id(2), 1), Err(LedgerError::Overflow));
    assert_eq!(r.contribute(&id(3), 1), Err(LedgerError::Overflow));
    assert_eq!(snapshot(&r), before);
}

#[test]
fn set_pension_plan_failures() {
    let mut r = LedgerRecord::new(id(1));
    assert_eq!(r.set_pension_plan(&id(2), 5), Err(LedgerError::NoBalanceFound));
    r.contribute(&id(2), 10).unwrap();
    let before = snapshot(&r);
    assert_eq!(r.set_pension_plan(&id(2), 0), Err(LedgerError::ZeroAmount));
    assert_eq!(r.set_pension_plan(&id(2), 11), Err(LedgerError::InsufficientBalance));
    assert_eq!(snapshot(&r), before);
}

#[test]
fn set_pension_plan_replaces_the_plan() {
    let mut r = LedgerRecord::new(id(1));
    r.contribute(&id(2), 10).unwrap();
    r.set_pension_plan(&id(2), 3).unwrap();
    r.set_pension_plan(&id(2), 4).unwrap();
    assert_eq!(r.plan, vec![(id(2), 4)]);
    assert_eq!(r.get_balance(&id(2)), 3);
    assert_eq!(r.get_total_balance(), 10);
}

#[test]
fn pay_pension_failures() {
    let mut r = LedgerRecord::new(id(1));
    assert_eq!(r.pay_pension(&id(2)), Err(LedgerError::NoPlanSet));
    r.contribute(&id(2), 10).unwrap();
    r.set_pension_plan(&id(2), 10).unwrap();
    assert_eq!(r.pay_pension(&id(2)), Ok(()));
    assert_eq!(r.get_total_balance(), 0);
    let before = snapshot(&r);
    assert_eq!(r.pay_pension(&id(2)), Err(LedgerError::InsufficientPoolFunds));
    assert_eq!(snapshot(&r), before);
}

#[test]
fn pay_pension_can_repeat_while_pool_lasts() {
    let mut r = LedgerRecord::new(id(1));
    r.contribute(&id(2), 10).unwrap();
    r.set_pension_plan(&id(2), 4).unwrap();
    assert_eq!(r.pay_pension(&id(2)), Ok(()));
    assert_eq!(r.pay_pension(&id(2)), Ok(()));
    assert_eq!(r.get_balance(&id(2)), 14);
    assert_eq!(r.get_total_balance(), 2);
    assert_eq!(r.plan, vec![(id(2), 4)]);
}

#[test]
fn set_owner_by_owner() {
    let mut r = LedgerRecord::new(id(1));
    assert_eq!(r.set_owner(&id(1), &id(5)), Ok(()));
    assert_eq!(r.get_owner(), id(5));
    assert_eq!(r.set_owner(&id(1), &id(6)), Err(LedgerError::NotOwner));
    assert_eq!(r.get_owner(), id(5));
}

#[test]
fn reads_do_not_mutate() {
    let mut r = LedgerRecord::new(id(1));
    r.contribute(&id(2), 8).unwrap();
    let before = snapshot(&r);
    for _ in 0..3 {
        assert_eq!(r.execute(&id(2), &Instruction::GetBalance), Ok(Outcome::Balance(8)));
        assert_eq!(r.execute(&id(2), &Instruction::GetTotalBalance), Ok(Outcome::TotalBalance(8)));
        assert_eq!(r.execute(&id(2), &Instruction::GetOwner), Ok(Outcome::Owner(id(1))));
    }
    assert_eq!(snapshot(&r), before);
}

#[test]
fn execute_dispatches_mutations() {
    let mut r = LedgerRecord::new(id(1));
    assert_eq!(r.execute(&id(2), &Instruction::Contribute(0)), Err(LedgerError::ZeroAmount));
    assert_eq!(r.execute(&id(2), &Instruction::Contribute(6)), Ok(Outcome::Done));
    assert_eq!(r.execute(&id(2), &Instruction::SetPensionPlan(2)), Ok(Outcome::Done));
    assert_eq!(r.execute(&id(2), &Instruction::PayPension), Ok(Outcome::Done));
    assert_eq!(r.get_balance(&id(2)), 6);
    assert_eq!(r.execute(&id(1), &Instruction::SetOwner(id(3))), Ok(Outcome::Done));
    assert_eq!(r.get_owner(), id(3));
}

#[test]
fn identity_equality_is_bytewise() {
    let mut b = [4u8; 32];
    assert!(Identity::new(b).same_as(&id(4)));
    b[31] = 5;
    assert!(!Identity::new(b).same_as(&id(4)));
    assert_ne!(Identity::new(b), id(4));
}
