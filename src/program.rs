use vstd::prelude::*;
use crate::codec::{decodes_to, lemma_decoding_unique};
use crate::identity::Identity;
use crate::instruction::{call_is_valid, call_of, decode_instruction, lemma_call_unique, Instruction};
use crate::ledger::{step, LedgerError, LedgerRecord, Outcome};

verus! {

/// One call as a transaction: decode the call, load the record from its stored form,
/// apply the operation by `caller`, and hand back the new stored form with the outcome.
/// Any failure comes back before anything is stored.
pub fn process(stored: &[u8], caller: &Identity, data: &[u8]) -> (r: Result<(Vec<u8>, Outcome), LedgerError>)
    ensures
        !call_is_valid(data@) ==> r == Err::<(Vec<u8>, Outcome), LedgerError>(
            LedgerError::InvalidInstruction,
        ),
        call_is_valid(data@) && (forall|q: LedgerRecord| !decodes_to(stored@, q)) ==> r == Err::<
            (Vec<u8>, Outcome),
            LedgerError,
        >(LedgerError::DecodeError),
        forall|ins: Instruction, q: LedgerRecord|
            call_of(data@, ins) && decodes_to(stored@, q) ==> match #[trigger] step(q@, *caller, ins) {
                Err(e) => r == Err::<(Vec<u8>, Outcome), LedgerError>(e),
                Ok((s, o)) => match r {
                    Ok((bytes, out)) => out == o && exists|n: LedgerRecord| #[trigger]
                        decodes_to(bytes@, n) && n@ == s,
                    Err(_) => false,
                },
            },
{
    let ins = match decode_instruction(data) {
        Ok(i) => i,
        Err(e) => {
            proof {
                assert forall|i: Instruction| !call_of(data@, i) by {
                    if call_of(data@, i) {
                        lemma_call_unique(data@, i, i);
                    }
                }
            }
            return Err(e);
        },
    };
    proof {
        lemma_call_unique(data@, ins, ins);
        assert forall|i: Instruction| call_of(data@, i) implies i == ins by {
            lemma_call_unique(data@, ins, i);
        }
    }
    let mut rec = match LedgerRecord::decode(stored) {
        Ok(r) => r,
        Err(e) => {
            return Err(e);
        },
    };
    let ghost loaded = rec;
    let r = match rec.execute(caller, &ins) {
        Ok(out) => {
            let bytes = rec.encode();
            assert(decodes_to(bytes@, rec));
            Ok((bytes, out))
        },
        Err(e) => Err(e),
    };
    proof {
        assert forall|i: Instruction, q: LedgerRecord|
            call_of(data@, i) && decodes_to(stored@, q) implies match #[trigger] step(q@, *caller, i) {
                Err(e) => r == Err::<(Vec<u8>, Outcome), LedgerError>(e),
                Ok((s, o)) => match r {
                    Ok((bytes, out)) => out == o && exists|n: LedgerRecord| #[trigger]
                        decodes_to(bytes@, n) && n@ == s,
                    Err(_) => false,
                },
            } by {
            lemma_call_unique(data@, ins, i);
            lemma_decoding_unique(stored@, q, loaded);
            assert(step(q@, *caller, i) == step(loaded@, *caller, ins));
            if let Ok((bytes, out)) = r {
                assert(decodes_to(bytes@, rec));
            }
        }
    }
    r
}

} // verus!
