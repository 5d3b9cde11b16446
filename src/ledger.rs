use vstd::prelude::*;
use crate::identity::Identity;
use crate::instruction::Instruction;

verus! {

/// The most entries a table of the record can hold: its length is stored as a `u32`.
pub const MAX_ENTRIES: usize = 0xffff_ffff;

/// The failures of the ledger, one per kind.
#[derive(Clone, Copy, Debug, PartialEq, Eq, Structural)]
pub enum LedgerError {
    /// Unrecognized opcode, or a payload too short for its opcode.
    InvalidInstruction,
    /// Stored bytes that are not the encoding of a well-formed record.
    DecodeError,
    /// A zero amount where a positive one is required.
    ZeroAmount,
    /// A plan allocation by an identity that has no balance entry.
    NoBalanceFound,
    /// A plan allocation larger than the identity's balance.
    InsufficientBalance,
    /// A payout to an identity whose plan is absent or zero.
    NoPlanSet,
    /// A payout larger than the pool total.
    InsufficientPoolFunds,
    /// A change of owner asked for by someone other than the owner.
    NotOwner,
    /// A balance or the pool total would exceed `u64::MAX`, or a table `MAX_ENTRIES`.
    Overflow,
}

/// What a successful operation hands back.
#[derive(Clone, Copy, Debug, PartialEq, Eq)]
pub enum Outcome {
    /// A mutating operation was applied.
    Done,
    /// The caller's balance.
    Balance(u64),
    /// The pool total.
    TotalBalance(u64),
    /// The owner.
    Owner(Identity),
}

/// The persisted aggregate: tables are lists of (identity, amount) pairs whose
/// identities are distinct; their order is kept, so that re-encoding is stable.
#[derive(Debug)]
pub struct LedgerRecord {
    pub owner: Identity,
    pub balances: Vec<(Identity, u64)>,
    pub plan: Vec<(Identity, u64)>,
    pub pool_total: u64,
}

/// The abstract state of a record: its tables as maps, and how many entries each holds.
pub ghost struct LedgerState {
    pub owner: Identity,
    pub balances: Map<Identity, u64>,
    pub plan: Map<Identity, u64>,
    pub pool_total: u64,
    pub balance_entries: nat,
    pub plan_entries: nat,
}

pub open spec fn has_key(s: Seq<(Identity, u64)>, k: Identity) -> bool {
    exists|i: int| 0 <= i < s.len() && s[i].0 == k
}

pub open spec fn keys_unique(s: Seq<(Identity, u64)>) -> bool {
    forall|i: int, j: int| 0 <= i < s.len() && 0 <= j < s.len() && i != j ==> s[i].0 != s[j].0
}

/// The table read as a map from identity to amount.
pub open spec fn entries_map(s: Seq<(Identity, u64)>) -> Map<Identity, u64> {
    Map::new(|k: Identity| has_key(s, k), |k: Identity| s[choose|i: int| 0 <= i < s.len() && s[i].0 == k].1)
}

impl LedgerState {
    pub open spec fn balance_of(self, k: Identity) -> u64 {
        if self.balances.contains_key(k) { self.balances[k] } else { 0 }
    }

    pub open spec fn plan_of(self, k: Identity) -> u64 {
        if self.plan.contains_key(k) { self.plan[k] } else { 0 }
    }
}

impl View for LedgerRecord {
    type V = LedgerState;

    open spec fn view(&self) -> LedgerState {
        LedgerState {
            owner: self.owner,
            balances: entries_map(self.balances@),
            plan: entries_map(self.plan@),
            pool_total: self.pool_total,
            balance_entries: self.balances@.len(),
            plan_entries: self.plan@.len(),
        }
    }
}

/// `Contribute(amount)` by `c`: the balance of `c` and the pool total grow by `amount`.
pub open spec fn spec_contribute(s: LedgerState, c: Identity, amount: u64) -> Result<LedgerState, LedgerError> {
    if amount == 0 {
        Err(LedgerError::ZeroAmount)
    } else if s.balance_of(c) + amount > u64::MAX || s.pool_total + amount > u64::MAX {
        Err(LedgerError::Overflow)
    } else if !s.balances.contains_key(c) && s.balance_entries >= MAX_ENTRIES {
        Err(LedgerError::Overflow)
    } else {
        Ok(LedgerState {
            balances: s.balances.insert(c, (s.balance_of(c) + amount) as u64),
            pool_total: (s.pool_total + amount) as u64,
            balance_entries: if s.balances.contains_key(c) { s.balance_entries } else { s.balance_entries + 1 },
            ..s
        })
    }
}

/// `SetPensionPlan(amount)` by `c`: `amount` leaves the balance of `c` and becomes its plan.
pub open spec fn spec_set_pension_plan(s: LedgerState, c: Identity, amount: u64) -> Result<LedgerState, LedgerError> {
    if amount == 0 {
        Err(LedgerError::ZeroAmount)
    } else if !s.balances.contains_key(c) {
        Err(LedgerError::NoBalanceFound)
    } else if s.balances[c] < amount {
        Err(LedgerError::InsufficientBalance)
    } else if !s.plan.contains_key(c) && s.plan_entries >= MAX_ENTRIES {
        Err(LedgerError::Overflow)
    } else {
        Ok(LedgerState {
            balances: s.balances.insert(c, (s.balances[c] - amount) as u64),
            plan: s.plan.insert(c, amount),
            plan_entries: if s.plan.contains_key(c) { s.plan_entries } else { s.plan_entries + 1 },
            ..s
        })
    }
}

/// `PayPension()` by `c`: the plan of `c` moves from the pool to its balance; the plan stays.
pub open spec fn spec_pay_pension(s: LedgerState, c: Identity) -> Result<LedgerState, LedgerError> {
    if s.plan_of(c) == 0 {
        Err(LedgerError::NoPlanSet)
    } else if s.pool_total < s.plan_of(c) {
        Err(LedgerError::InsufficientPoolFunds)
    } else if s.balance_of(c) + s.plan_of(c) > u64::MAX {
        Err(LedgerError::Overflow)
    } else if !s.balances.contains_key(c) && s.balance_entries >= MAX_ENTRIES {
        Err(LedgerError::Overflow)
    } else {
        Ok(LedgerState {
            balances: s.balances.insert(c, (s.balance_of(c) + s.plan_of(c)) as u64),
            pool_total: (s.pool_total - s.plan_of(c)) as u64,
            balance_entries: if s.balances.contains_key(c) { s.balance_entries } else { s.balance_entries + 1 },
            ..s
        })
    }
}

/// `SetOwner(new_owner)` by `c`: only the owner may hand ownership on.
pub open spec fn spec_set_owner(s: LedgerState, c: Identity, new_owner: Identity) -> Result<LedgerState, LedgerError> {
    if c != s.owner {
        Err(LedgerError::NotOwner)
    } else {
        Ok(LedgerState { owner: new_owner, ..s })
    }
}

/// One operation by `c` on state `s`: the next state and the outcome, or the failure.
pub open spec fn step(s: LedgerState, c: Identity, ins: Instruction) -> Result<(LedgerState, Outcome), LedgerError> {
    match ins {
        Instruction::Contribute(a) => match spec_contribute(s, c, a) {
            Ok(t) => Ok((t, Outcome::Done)),
            Err(e) => Err(e),
        },
        Instruction::SetPensionPlan(a) => match spec_set_pension_plan(s, c, a) {
            Ok(t) => Ok((t, Outcome::Done)),
            Err(e) => Err(e),
        },
        Instruction::PayPension => match spec_pay_pension(s, c) {
            Ok(t) => Ok((t, Outcome::Done)),
            Err(e) => Err(e),
        },
        Instruction::GetBalance => Ok((s, Outcome::Balance(s.balance_of(c)))),
        Instruction::GetTotalBalance => Ok((s, Outcome::TotalBalance(s.pool_total))),
        Instruction::GetOwner => Ok((s, Outcome::Owner(s.owner))),
        Instruction::SetOwner(o) => match spec_set_owner(s, c, o) {
            Ok(t) => Ok((t, Outcome::Done)),
            Err(e) => Err(e),
        },
    }
}

proof fn lemma_entry_value(s: Seq<(Identity, u64)>, i: int)
    requires
        keys_unique(s),
        0 <= i < s.len(),
    ensures
        entries_map(s).contains_key(s[i].0),
        entries_map(s)[s[i].0] == s[i].1,
{
    assert(has_key(s, s[i].0));
    let j = choose|j: int| 0 <= j < s.len() && s[j].0 == s[i].0;
    assert(j == i);
}

proof fn lemma_entry_update(s: Seq<(Identity, u64)>, i: int, v: u64)
    requires
        keys_unique(s),
        0 <= i < s.len(),
    ensures
        keys_unique(s.update(i, (s[i].0, v))),
        entries_map(s.update(i, (s[i].0, v))) == entries_map(s).insert(s[i].0, v),
{
    let k = s[i].0;
    let t = s.update(i, (k, v));
    assert forall|k2: Identity| has_key(t, k2) == has_key(s, k2) by {
        if has_key(t, k2) {
            let j = choose|j: int| 0 <= j < t.len() && t[j].0 == k2;
            assert(s[j].0 == k2);
        }
        if has_key(s, k2) {
            let j = choose|j: int| 0 <= j < s.len() && s[j].0 == k2;
            assert(t[j].0 == k2);
        }
    }
    assert forall|k2: Identity| #[trigger] entries_map(t).contains_key(k2) implies entries_map(t)[k2]
        == entries_map(s).insert(k, v)[k2] by {
        let j = choose|j: int| 0 <= j < t.len() && t[j].0 == k2;
        lemma_entry_value(t, j);
        lemma_entry_value(s, j);
    }
    assert(entries_map(t) =~= entries_map(s).insert(k, v));
}

proof fn lemma_entry_push(s: Seq<(Identity, u64)>, k: Identity, v: u64)
    requires
        keys_unique(s),
        !has_key(s, k),
    ensures
        keys_unique(s.push((k, v))),
        entries_map(s.push((k, v))) == entries_map(s).insert(k, v),
{
    let t = s.push((k, v));
    assert forall|k2: Identity| has_key(t, k2) == (has_key(s, k2) || k2 == k) by {
        if has_key(t, k2) && k2 != k {
            let j = choose|j: int| 0 <= j < t.len() && t[j].0 == k2;
            assert(s[j].0 == k2);
        }
        if has_key(s, k2) {
            let j = choose|j: int| 0 <= j < s.len() && s[j].0 == k2;
            assert(t[j].0 == k2);
        }
        if k2 == k {
            assert(t[s.len() as int].0 == k2);
        }
    }
    assert forall|k2: Identity| #[trigger] entries_map(t).contains_key(k2) implies entries_map(t)[k2]
        == entries_map(s).insert(k, v)[k2] by {
        let j = choose|j: int| 0 <= j < t.len() && t[j].0 == k2;
        lemma_entry_value(t, j);
        if j < s.len() {
            lemma_entry_value(s, j);
        }
    }
    assert(entries_map(t) =~= entries_map(s).insert(k, v));
}

/// The position of `k` in the table, if it has an entry.
fn find_entry(v: &Vec<(Identity, u64)>, k: &Identity) -> (r: Option<usize>)
    ensures
        match r {
            Some(i) => i < v@.len() && v@[i as int].0 == *k,
            None => !has_key(v@, *k),
        },
{
    let mut i: usize = 0;
    while i < v.len()
        invariant
            0 <= i <= v@.len(),
            forall|j: int| 0 <= j < i ==> v@[j].0 != *k,
        decreases v@.len() - i,
    {
        if v[i].0.same_as(k) {
            return Some(i);
        }
        i = i + 1;
    }
    None
}

impl LedgerRecord {
    /// A well-formed record: distinct identities in each table, each table within `MAX_ENTRIES`.
    pub open spec fn wf(&self) -> bool {
        keys_unique(self.balances@) && keys_unique(self.plan@) && self.balances@.len() <= MAX_ENTRIES
            && self.plan@.len() <= MAX_ENTRIES
    }

    /// A fresh record owned by `owner`: empty tables, empty pool.
    pub fn new(owner: Identity) -> (r: LedgerRecord)
        ensures
            r.wf(),
            r@.owner == owner,
            r@.balances == Map::<Identity, u64>::empty(),
            r@.plan == Map::<Identity, u64>::empty(),
            r@.pool_total == 0,
            r@.balance_entries == 0,
            r@.plan_entries == 0,
    {
        let r = LedgerRecord { owner, balances: Vec::new(), plan: Vec::new(), pool_total: 0 };
        assert(r@.balances =~= Map::<Identity, u64>::empty());
        assert(r@.plan =~= Map::<Identity, u64>::empty());
        r
    }

    /// Adds `amount` to the caller's balance (creating the entry) and to the pool total.
    pub fn contribute(&mut self, caller: &Identity, amount: u64) -> (r: Result<(), LedgerError>)
        requires
            old(self).wf(),
        ensures
            final(self).wf(),
            match spec_contribute(old(self)@, *caller, amount) {
                Ok(s) => r == Ok::<(), LedgerError>(()) && final(self)@ == s,
                Err(e) => r == Err::<(), LedgerError>(e) && *final(self) == *old(self),
            },
    {
        if amount == 0 {
            return Err(LedgerError::ZeroAmount);
        }
        let idx = find_entry(&self.balances, caller);
        let current: u64 = match idx {
            Some(i) => self.balances[i].1,
            None => 0,
        };
        proof {
            if let Some(i) = idx {
                lemma_entry_value(self.balances@, i as int);
            }
        }
        if current > u64::MAX - amount || self.pool_total > u64::MAX - amount {
            return Err(LedgerError::Overflow);
        }
        match idx {
            Some(i) => {
                proof {
                    lemma_entry_update(self.balances@, i as int, (current + amount) as u64);
                }
                self.balances.set(i, (*caller, current + amount));
            },
            None => {
                if self.balances.len() >= MAX_ENTRIES {
                    return Err(LedgerError::Overflow);
                }
                proof {
                    lemma_entry_push(self.balances@, *caller, amount);
                }
                self.balances.push((*caller, amount));
            },
        }
        self.pool_total = self.pool_total + amount;
        Ok(())
    }

    /// Moves `amount` from the caller's balance into its plan (replacing the plan).
    pub fn set_pension_plan(&mut self, caller: &Identity, amount: u64) -> (r: Result<(), LedgerError>)
        requires
            old(self).wf(),
        ensures
            final(self).wf(),
            match spec_set_pension_plan(old(self)@, *caller, amount) {
                Ok(s) => r == Ok::<(), LedgerError>(()) && final(self)@ == s,
                Err(e) => r == Err::<(), LedgerError>(e) && *final(self) == *old(self),
            },
    {
        if amount == 0 {
            return Err(LedgerError::ZeroAmount);
        }
        let bi = match find_entry(&self.balances, caller) {
            Some(i) => i,
            None => {
                return Err(LedgerError::NoBalanceFound);
            },
        };
        let balance = self.balances[bi].1;
        proof {
            lemma_entry_value(self.balances@, bi as int);
        }
        if balance < amount {
            return Err(LedgerError::InsufficientBalance);
        }
        let pi = find_entry(&self.plan, caller);
        proof {
            if let Some(i) = pi {
                lemma_entry_value(self.plan@, i as int);
            }
        }
        if pi.is_none() && self.plan.len() >= MAX_ENTRIES {
            return Err(LedgerError::Overflow);
        }
        proof {
            lemma_entry_update(self.balances@, bi as int, (balance - amount) as u64);
        }
        self.balances.set(bi, (*caller, balance - amount));
        match pi {
            Some(i) => {
                proof {
                    lemma_entry_update(self.plan@, i as int, amount);
                }
                self.plan.set(i, (*caller, amount));
            },
            None => {
                proof {
                    lemma_entry_push(self.plan@, *caller, amount);
                }
                self.plan.push((*caller, amount));
            },
        }
        Ok(())
    }

    /// Pays the caller's plan out of the pool into its balance; the plan is left as it was.
    pub fn pay_pension(&mut self, caller: &Identity) -> (r: Result<(), LedgerError>)
        requires
            old(self).wf(),
        ensures
            final(self).wf(),
            match spec_pay_pension(old(self)@, *caller) {
                Ok(s) => r == Ok::<(), LedgerError>(()) && final(self)@ == s,
                Err(e) => r == Err::<(), LedgerError>(e) && *final(self) == *old(self),
            },
    {
        let amount: u64 = match find_entry(&self.plan, caller) {
            Some(i) => {
                proof {
                    lemma_entry_value(self.plan@, i as int);
                }
                self.plan[i].1
            },
            None => 0,
        };
        if amount == 0 {
            return Err(LedgerError::NoPlanSet);
        }
        if self.pool_total < amount {
            return Err(LedgerError::InsufficientPoolFunds);
        }
        let idx = find_entry(&self.balances, caller);
        let current: u64 = match idx {
            Some(i) => self.balances[i].1,
            None => 0,
        };
        proof {
            if let Some(i) = idx {
                lemma_entry_value(self.balances@, i as int);
            }
        }
        if current > u64::MAX - amount {
            return Err(LedgerError::Overflow);
        }
        match idx {
            Some(i) => {
                proof {
                    lemma_entry_update(self.balances@, i as int, (current + amount) as u64);
                }
                self.balances.set(i, (*caller, current + amount));
            },
            None => {
                if self.balances.len() >= MAX_ENTRIES {
                    return Err(LedgerError::Overflow);
                }
                proof {
                    lemma_entry_push(self.balances@, *caller, amount);
                }
                self.balances.push((*caller, amount));
            },
        }
        self.pool_total = self.pool_total - amount;
        Ok(())
    }

    /// The caller's balance, or 0 where it has no entry.
    pub fn get_balance(&self, caller: &Identity) -> (r: u64)
        requires
            self.wf(),
        ensures
            r == self@.balance_of(*caller),
    {
        match find_entry(&self.balances, caller) {
            Some(i) => {
                proof {
                    lemma_entry_value(self.balances@, i as int);
                }
                self.balances[i].1
            },
            None => 0,
        }
    }

    /// The pool total.
    pub fn get_total_balance(&self) -> (r: u64)
        ensures
            r == self@.pool_total,
    {
        self.pool_total
    }

    /// The owner.
    pub fn get_owner(&self) -> (r: Identity)
        ensures
            r == self@.owner,
    {
        self.owner
    }

    /// Hands ownership to `new_owner`; only the current owner may.
    pub fn set_owner(&mut self, caller: &Identity, new_owner: &Identity) -> (r: Result<(), LedgerError>)
        requires
            old(self).wf(),
        ensures
            final(self).wf(),
            match spec_set_owner(old(self)@, *caller, *new_owner) {
                Ok(s) => r == Ok::<(), LedgerError>(()) && final(self)@ == s,
                Err(e) => r == Err::<(), LedgerError>(e) && *final(self) == *old(self),
            },
    {
        if !caller.same_as(&self.owner) {
            return Err(LedgerError::NotOwner);
        }
        self.owner = *new_owner;
        Ok(())
    }

    /// Runs one instruction by `caller`: the whole change, or none and the failure.
    pub fn execute(&mut self, caller: &Identity, ins: &Instruction) -> (r: Result<Outcome, LedgerError>)
        requires
            old(self).wf(),
        ensures
            final(self).wf(),
            match step(old(self)@, *caller, *ins) {
                Ok((s, o)) => r == Ok::<Outcome, LedgerError>(o) && final(self)@ == s,
                Err(e) => r == Err::<Outcome, LedgerError>(e) && *final(self) == *old(self),
            },
    {
        match ins {
            Instruction::Contribute(a) => match self.contribute(caller, *a) {
                Ok(()) => Ok(Outcome::Done),
                Err(e) => Err(e),
            },
            Instruction::SetPensionPlan(a) => match self.set_pension_plan(caller, *a) {
                Ok(()) => Ok(Outcome::Done),
                Err(e) => Err(e),
            },
            Instruction::PayPension => match self.pay_pension(caller) {
                Ok(()) => Ok(Outcome::Done),
                Err(e) => Err(e),
            },
            Instruction::GetBalance => Ok(Outcome::Balance(self.get_balance(caller))),
            Instruction::GetTotalBalance => Ok(Outcome::TotalBalance(self.get_total_balance())),
            Instruction::GetOwner => Ok(Outcome::Owner(self.get_owner())),
            Instruction::SetOwner(o) => match self.set_owner(caller, o) {
                Ok(()) => Ok(Outcome::Done),
                Err(e) => Err(e),
            },
        }
    }
}

/// Contribute: a positive amount that fits raises the caller's balance and the pool
/// total by exactly that amount and touches nothing else; a zero amount fails with
/// `ZeroAmount`.
pub proof fn lemma_contribute(s: LedgerState, c: Identity, amount: u64)
    ensures
        amount == 0 ==> spec_contribute(s, c, amount) == Err::<LedgerState, LedgerError>(
            LedgerError::ZeroAmount,
        ),
        amount > 0 && s.balance_of(c) + amount <= u64::MAX && s.pool_total + amount <= u64::MAX && (
        s.balances.contains_key(c) || s.balance_entries < MAX_ENTRIES) ==> spec_contribute(s, c, amount) is Ok,
        spec_contribute(s, c, amount) matches Ok(t) ==> amount > 0 && t.balance_of(c) == s.balance_of(c)
            + amount && t.pool_total == s.pool_total + amount && t.owner == s.owner && t.plan == s.plan
            && forall|k: Identity| k != c ==> t.balance_of(k) == s.balance_of(k),
{
}

/// Plan allocation: a positive amount within the caller's balance leaves that balance,
/// becomes the caller's plan, and leaves the pool total as it was; a zero amount, a
/// caller without a balance entry, or an amount above the balance fails.
pub proof fn lemma_set_pension_plan(s: LedgerState, c: Identity, amount: u64)
    ensures
        0 < amount <= s.balance_of(c) && (s.plan.contains_key(c) || s.plan_entries < MAX_ENTRIES)
            ==> spec_set_pension_plan(s, c, amount) is Ok,
        amount == 0 || !s.balances.contains_key(c) || amount > s.balance_of(c)
            ==> spec_set_pension_plan(s, c, amount) is Err,
        spec_set_pension_plan(s, c, amount) matches Ok(t) ==> t.balance_of(c) == s.balance_of(c) - amount
            && t.plan_of(c) == amount && t.pool_total == s.pool_total && t.owner == s.owner,
{
}

/// Payout: it succeeds only where the caller's plan is positive and the pool covers it,
/// and then (balance and table within bounds) it does; on success the caller's balance
/// rises and the pool total falls by exactly the plan, which stays as it was.
pub proof fn lemma_pay_pension(s: LedgerState, c: Identity)
    ensures
        spec_pay_pension(s, c) is Ok ==> s.plan_of(c) > 0 && s.pool_total >= s.plan_of(c),
        s.plan_of(c) > 0 && s.pool_total >= s.plan_of(c) && s.balance_of(c) + s.plan_of(c) <= u64::MAX && (
        s.balances.contains_key(c) || s.balance_entries < MAX_ENTRIES) ==> spec_pay_pension(s, c) is Ok,
        spec_pay_pension(s, c) matches Ok(t) ==> t.balance_of(c) == s.balance_of(c) + s.plan_of(c)
            && t.pool_total == s.pool_total - s.plan_of(c) && t.plan == s.plan && t.owner == s.owner,
{
}

/// Ownership: only the owner can hand ownership on; anyone else gets `NotOwner`.
pub proof fn lemma_set_owner(s: LedgerState, c: Identity, x: Identity)
    ensures
        spec_set_owner(s, c, x) is Ok <==> c == s.owner,
        c != s.owner ==> spec_set_owner(s, c, x) == Err::<LedgerState, LedgerError>(LedgerError::NotOwner),
        spec_set_owner(s, c, x) matches Ok(t) ==> t.owner == x && t.balances == s.balances && t.plan
            == s.plan && t.pool_total == s.pool_total,
{
}

/// Reads: a query leaves the state as it was, so asking again gives the same answer.
pub proof fn lemma_reads_do_not_mutate(s: LedgerState, c: Identity, ins: Instruction)
    requires
        ins is GetBalance || ins is GetTotalBalance || ins is GetOwner,
    ensures
        step(s, c, ins) matches Ok((t, o)) && t == s && step(t, c, ins) == step(s, c, ins),
{
}

} // verus!
