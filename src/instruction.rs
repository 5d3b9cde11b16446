use vstd::prelude::*;
use crate::identity::Identity;
use crate::ledger::LedgerError;

verus! {

/// One ledger operation, with its argument.
#[derive(Clone, Copy, Debug, PartialEq, Eq)]
pub enum Instruction {
    Contribute(u64),
    SetPensionPlan(u64),
    PayPension,
    GetBalance,
    GetTotalBalance,
    GetOwner,
    SetOwner(Identity),
}

/// The eight big-endian bytes of `x`.
pub open spec fn be_bytes_u64(x: u64) -> Seq<u8> {
    seq![
        (x >> 56u64) as u8,
        (x >> 48u64) as u8,
        (x >> 40u64) as u8,
        (x >> 32u64) as u8,
        (x >> 24u64) as u8,
        (x >> 16u64) as u8,
        (x >> 8u64) as u8,
        x as u8,
    ]
}

/// The opcodes, in order: contribute, set plan, pay, balance, total, owner, set owner.
pub const OP_CONTRIBUTE: u8 = 0;
pub const OP_SET_PENSION_PLAN: u8 = 1;
pub const OP_PAY_PENSION: u8 = 2;
pub const OP_GET_BALANCE: u8 = 3;
pub const OP_GET_TOTAL_BALANCE: u8 = 4;
pub const OP_GET_OWNER: u8 = 5;
pub const OP_SET_OWNER: u8 = 6;

/// `data` is a well-formed call: a known opcode followed by at least its payload.
pub open spec fn call_is_valid(data: Seq<u8>) -> bool {
    data.len() >= 1 && data[0] <= OP_SET_OWNER && ((data[0] == OP_CONTRIBUTE || data[0]
        == OP_SET_PENSION_PLAN) ==> data.len() >= 9) && (data[0] == OP_SET_OWNER ==> data.len() >= 33)
}

/// `data` is a call of `ins`: its opcode, then its argument (bytes after the payload are ignored).
pub open spec fn call_of(data: Seq<u8>, ins: Instruction) -> bool {
    data.len() >= 1 && match ins {
        Instruction::Contribute(a) => data[0] == OP_CONTRIBUTE && data.len() >= 9 && be_bytes_u64(a)
            == data.subrange(1, 9),
        Instruction::SetPensionPlan(a) => data[0] == OP_SET_PENSION_PLAN && data.len() >= 9
            && be_bytes_u64(a) == data.subrange(1, 9),
        Instruction::PayPension => data[0] == OP_PAY_PENSION,
        Instruction::GetBalance => data[0] == OP_GET_BALANCE,
        Instruction::GetTotalBalance => data[0] == OP_GET_TOTAL_BALANCE,
        Instruction::GetOwner => data[0] == OP_GET_OWNER,
        Instruction::SetOwner(o) => data[0] == OP_SET_OWNER && data.len() >= 33 && o.bytes@
            == data.subrange(1, 33),
    }
}

/// Reads the big-endian amount in `data[1..9]`.
fn read_amount(data: &[u8]) -> (r: u64)
    requires
        data@.len() >= 9,
    ensures
        be_bytes_u64(r) == data@.subrange(1, 9),
{
    let b1 = data[1] as u64;
    let b2 = data[2] as u64;
    let b3 = data[3] as u64;
    let b4 = data[4] as u64;
    let b5 = data[5] as u64;
    let b6 = data[6] as u64;
    let b7 = data[7] as u64;
    let b8 = data[8] as u64;
    let x: u64 = (b1 << 56u64) | (b2 << 48u64) | (b3 << 40u64) | (b4 << 32u64) | (b5 << 24u64) | (b6
        << 16u64) | (b7 << 8u64) | b8;
    assert((x >> 56u64) as u8 == b1 as u8 && (x >> 48u64) as u8 == b2 as u8 && (x >> 40u64) as u8
        == b3 as u8 && (x >> 32u64) as u8 == b4 as u8 && (x >> 24u64) as u8 == b5 as u8 && (x
        >> 16u64) as u8 == b6 as u8 && (x >> 8u64) as u8 == b7 as u8 && x as u8 == b8 as u8)
        by (bit_vector)
        requires
            b1 < 256 && b2 < 256 && b3 < 256 && b4 < 256 && b5 < 256 && b6 < 256 && b7 < 256 && b8
                < 256,
            x == (b1 << 56u64) | (b2 << 48u64) | (b3 << 40u64) | (b4 << 32u64) | (b5 << 24u64) | (b6
                << 16u64) | (b7 << 8u64) | b8,
    ;
    assert(be_bytes_u64(x) =~= data@.subrange(1, 9));
    x
}

/// Decodes a call: an opcode byte, then the operation's payload.
pub fn decode_instruction(data: &[u8]) -> (r: Result<Instruction, LedgerError>)
    ensures
        match r {
            Ok(ins) => call_of(data@, ins),
            Err(e) => e == LedgerError::InvalidInstruction && !call_is_valid(data@),
        },
{
    if data.len() == 0 {
        return Err(LedgerError::InvalidInstruction);
    }
    let op = data[0];
    if op == OP_CONTRIBUTE || op == OP_SET_PENSION_PLAN {
        if data.len() < 9 {
            return Err(LedgerError::InvalidInstruction);
        }
        let amount = read_amount(data);
        if op == OP_CONTRIBUTE {
            Ok(Instruction::Contribute(amount))
        } else {
            Ok(Instruction::SetPensionPlan(amount))
        }
    } else if op == OP_PAY_PENSION {
        Ok(Instruction::PayPension)
    } else if op == OP_GET_BALANCE {
        Ok(Instruction::GetBalance)
    } else if op == OP_GET_TOTAL_BALANCE {
        Ok(Instruction::GetTotalBalance)
    } else if op == OP_GET_OWNER {
        Ok(Instruction::GetOwner)
    } else if op == OP_SET_OWNER {
        if data.len() < 33 {
            return Err(LedgerError::InvalidInstruction);
        }
        let mut a: [u8; 32] = [0u8; 32];
        let mut i: usize = 0;
        while i < 32
            invariant
                0 <= i <= 32,
                data@.len() >= 33,
                forall|j: int| 0 <= j < i ==> a@[j] == data@[1 + j],
            decreases 32 - i,
        {
            a[i] = data[1 + i];
            i = i + 1;
        }
        assert(a@ =~= data@.subrange(1, 33));
        Ok(Instruction::SetOwner(Identity { bytes: a }))
    } else {
        Err(LedgerError::InvalidInstruction)
    }
}

proof fn lemma_be_u64_injective(x: u64, y: u64)
    requires
        be_bytes_u64(x) == be_bytes_u64(y),
    ensures
        x == y,
{
    let a = be_bytes_u64(x);
    let b = be_bytes_u64(y);
    assert(a[0] == b[0] && a[1] == b[1] && a[2] == b[2] && a[3] == b[3]);
    assert(a[4] == b[4] && a[5] == b[5] && a[6] == b[6] && a[7] == b[7]);
    assert(x == y) by (bit_vector)
        requires
            x as u8 == y as u8,
            (x >> 8u64) as u8 == (y >> 8u64) as u8,
            (x >> 16u64) as u8 == (y >> 16u64) as u8,
            (x >> 24u64) as u8 == (y >> 24u64) as u8,
            (x >> 32u64) as u8 == (y >> 32u64) as u8,
            (x >> 40u64) as u8 == (y >> 40u64) as u8,
            (x >> 48u64) as u8 == (y >> 48u64) as u8,
            (x >> 56u64) as u8 == (y >> 56u64) as u8,
    ;
}

/// A call names exactly one instruction, and only a well-formed call names one.
pub proof fn lemma_call_unique(data: Seq<u8>, a: Instruction, b: Instruction)
    requires
        call_of(data, a),
    ensures
        call_is_valid(data),
        call_of(data, b) ==> a == b,
{
    if call_of(data, b) {
        match (a, b) {
            (Instruction::Contribute(x), Instruction::Contribute(y)) => lemma_be_u64_injective(x, y),
            (Instruction::SetPensionPlan(x), Instruction::SetPensionPlan(y)) => lemma_be_u64_injective(x, y),
            (Instruction::SetOwner(x), Instruction::SetOwner(y)) => {
                assert(x.bytes =~= y.bytes);
            },
            _ => {},
        }
    }
}

} // verus!
