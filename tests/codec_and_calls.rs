use pension_ledger::identity::Identity;
use pension_ledger::instruction::{decode_instruction, Instruction};
use pension_ledger::ledger::{LedgerError, LedgerRecord, Outcome};
use pension_ledger::program::process;

fn id(b: u8) -> Identity {
    Identity::new([b; 32])
}

fn sample() -> LedgerRecord {
    let mut r = LedgerRecord::new(id(1));
    r.contribute(&id(2), 300).unwrap();
    r.contribute(&id(3), 5).unwrap();
    r.set_pension_plan(&id(2), 44).unwrap();
    r
}

#[test]
fn encoding_layout() {
    let mut r = LedgerRecord::new(id(1));
    r.contribute(&id(2), 0x0102).unwrap();
    let mut want = vec![1u8; 32];
    want.extend_from_slice(&[1, 0, 0, 0]);
    want.extend_from_slice(&[2u8; 32]);
    want.extend_from_slice(&[2, 1, 0, 0, 0, 0, 0, 0]);
    want.extend_from_slice(&[0, 0, 0, 0]);
    want.extend_from_slice(&[2, 1, 0, 0, 0, 0, 0, 0]);
    assert_eq!(r.encode(), want);
}

#[test]
fn empty_record_encoding() {
    let r = LedgerRecord::new(id(7));
    let bytes = r.encode();
    assert_eq!(bytes.len(), 32 + 4 + 4 + 8);
    assert_eq!(&bytes[32..], &[0u8; 16]);
}

#[test]
fn round_trip() {
    let r = sample();
    let back = LedgerRecord::decode(&r.encode()).unwrap();
    assert_eq!(back.owner, r.owner);
    assert_eq!(back.balances, r.balances);
    assert_eq!(back.plan, r.plan);
    assert_eq!(back.pool_total, r.pool_total);
    assert_eq!(back.encode(), r.encode());
}

#[test]
fn decode_rejects_malformed_bytes() {
    let bytes = sample().encode();
    assert_eq!(LedgerRecord::decode(&bytes[..20]).unwrap_err(), LedgerError::DecodeError);
    assert_eq!(LedgerRecord::decode(&bytes[..bytes.len() - 1]).unwrap_err(), LedgerError::DecodeError);
    let mut longer = bytes.clone();
    longer.push(0);
    assert_eq!(LedgerRecord::decode(&longer).unwrap_err(), LedgerError::DecodeError);
    let mut huge_count = bytes.clone();
    huge_count[32..36].copy_from_slice(&[0xff, 0xff, 0xff, 0xff]);
    assert_eq!(LedgerRecord::decode(&huge_count).unwrap_err(), LedgerError::DecodeError);
    assert_eq!(LedgerRecord::decode(&[]).unwrap_err(), LedgerError::DecodeError);
}

#[test]
fn decode_rejects_duplicate_identities() {
    let r = LedgerRecord {
        owner: id(1),
        balances: vec![(id(2), 1), (id(2), 2)],
        plan: vec![],
        pool_total: 3,
    };
    let mut bytes = vec![1u8; 32];
    bytes.extend_from_slice(&[2, 0, 0, 0]);
    for (k, v) in &r.balances {
        bytes.extend_from_slice(&k.bytes);
        bytes.extend_from_slice(&v.to_le_bytes());
    }
    bytes.extend_from_slice(&[0, 0, 0, 0]);
    bytes.extend_from_slice(&3u64.to_le_bytes());
    assert_eq!(LedgerRecord::decode(&bytes).unwrap_err(), LedgerError::DecodeError);
}

#[test]
fn instruction_opcodes() {
    assert_eq!(decode_instruction(&[0, 0, 0, 0, 0, 0, 0, 1, 2]), Ok(Instruction::Contribute(258)));
    assert_eq!(decode_instruction(&[1, 1, 0, 0, 0, 0, 0, 0, 0]), Ok(Instruction::SetPensionPlan(1 << 56)));
    assert_eq!(decode_instruction(&[2]), Ok(Instruction::PayPension));
    assert_eq!(decode_instruction(&[3]), Ok(Instruction::GetBalance));
    assert_eq!(decode_instruction(&[4]), Ok(Instruction::GetTotalBalance));
    assert_eq!(decode_instruction(&[5, 9]), Ok(Instruction::GetOwner));
    let mut set_owner = vec![6u8];
    set_owner.extend_from_slice(&[8u8; 32]);
    assert_eq!(decode_instruction(&set_owner), Ok(Instruction::SetOwner(id(8))));
}

#[test]
fn instruction_rejects_bad_calls() {
    assert_eq!(decode_instruction(&[]), Err(LedgerError::InvalidInstruction));
    assert_eq!(decode_instruction(&[7]), Err(LedgerError::InvalidInstruction));
    assert_eq!(decode_instruction(&[0, 1, 2, 3]), Err(LedgerError::InvalidInstruction));
    assert_eq!(decode_instruction(&[1, 0, 0, 0, 0, 0, 0, 0]), Err(LedgerError::InvalidInstruction));
    assert_eq!(decode_instruction(&[6, 1, 2]), Err(LedgerError::InvalidInstruction));
}

#[test]
fn process_runs_one_transaction() {
    let stored = LedgerRecord::new(id(1)).encode();
    let (bytes, out) = process(&stored, &id(2), &[0, 0, 0, 0, 0, 0, 0, 0, 100]).unwrap();
    assert_eq!(out, Outcome::Done);
    let (_, out) = process(&bytes, &id(2), &[3]).unwrap();
    assert_eq!(out, Outcome::Balance(100));
    let (same, out) = process(&bytes, &id(9), &[4]).unwrap();
    assert_eq!(out, Outcome::TotalBalance(100));
    assert_eq!(same, bytes);
}

#[test]
fn process_failures() {
    let stored = LedgerRecord::new(id(1)).encode();
    assert_eq!(process(&stored, &id(2), &[9]).unwrap_err(), LedgerError::InvalidInstruction);
    assert_eq!(process(&stored[..10], &id(2), &[3]).unwrap_err(), LedgerError::DecodeError);
    assert_eq!(process(&stored, &id(2), &[2]).unwrap_err(), LedgerError::NoPlanSet);
    let mut set_owner = vec![6u8];
    set_owner.extend_from_slice(&[3u8; 32]);
    assert_eq!(process(&stored, &id(2), &set_owner).unwrap_err(), LedgerError::NotOwner);
    let (bytes, _) = process(&stored, &id(1), &set_owner).unwrap();
    let (_, out) = process(&bytes, &id(2), &[5]).unwrap();
    assert_eq!(out, Outcome::Owner(id(3)));
}
