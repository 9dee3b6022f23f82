use crate::error::PalletError;
use vstd::bytes::{
    lemma_auto_spec_u64_to_from_le_bytes, spec_u64_from_le_bytes, spec_u64_to_le_bytes,
    u64_from_le_bytes, u64_to_le_bytes,
};
use vstd::prelude::*;
use vstd::slice::slice_subrange;

verus! {

/// The four requests the program understands.
#[derive(Debug, Clone, Copy, PartialEq, Eq, Structural)]
pub enum Instruction {
    InitVault,
    InitBank,
    Deposit { amount: u64 },
    Withdraw { amount: u64 },
}

/// The instruction that `raw` encodes: a tag byte, then for a transfer an
/// amount of eight little-endian bytes; trailing bytes are ignored.
pub open spec fn spec_decode(raw: Seq<u8>) -> Option<Instruction> {
    if raw.len() == 0 {
        None
    } else if raw[0] == 0 {
        Some(Instruction::InitVault)
    } else if raw[0] == 1 {
        Some(Instruction::InitBank)
    } else if (raw[0] == 2 || raw[0] == 3) && raw.len() >= 9 {
        let amount = spec_u64_from_le_bytes(raw.subrange(1, 9));
        if raw[0] == 2 {
            Some(Instruction::Deposit { amount })
        } else {
            Some(Instruction::Withdraw { amount })
        }
    } else {
        None
    }
}

/// The canonical encoding of an instruction.
pub open spec fn spec_encode(ins: Instruction) -> Seq<u8> {
    match ins {
        Instruction::InitVault => seq![0u8],
        Instruction::InitBank => seq![1u8],
        Instruction::Deposit { amount } => seq![2u8] + spec_u64_to_le_bytes(amount),
        Instruction::Withdraw { amount } => seq![3u8] + spec_u64_to_le_bytes(amount),
    }
}

impl Instruction {
    /// Decodes `instruction_bytes`; a failure is reported by its numeric code.
    pub fn unpack(instruction_bytes: &[u8]) -> (r: Result<Self, u32>)
        ensures
            r is Ok <==> spec_decode(instruction_bytes@) is Some,
            r is Ok ==> Some(r->Ok_0) == spec_decode(instruction_bytes@),
            r is Err ==> r->Err_0 == PalletError::InvalidInstruction.spec_code(),
    {
        match Self::unpack_raw(instruction_bytes) {
            Ok(ins) => Ok(ins),
            Err(e) => Err(e.code()),
        }
    }

    /// Decodes `raw`, failing with `InvalidInstruction` on anything malformed.
    pub fn unpack_raw(raw: &[u8]) -> (r: Result<Self, PalletError>)
        ensures
            r is Ok <==> spec_decode(raw@) is Some,
            r is Ok ==> Some(r->Ok_0) == spec_decode(raw@),
            r is Err ==> r->Err_0 == PalletError::InvalidInstruction,
    {
        if raw.len() == 0 {
            return Err(PalletError::InvalidInstruction);
        }
        let tag = raw[0];
        if tag == 0 {
            Ok(Instruction::InitVault)
        } else if tag == 1 {
            Ok(Instruction::InitBank)
        } else if (tag == 2 || tag == 3) && raw.len() >= 9 {
            let payload = slice_subrange(raw, 1, 9);
            let amount = u64_from_le_bytes(payload);
            if tag == 2 {
                Ok(Instruction::Deposit { amount })
            } else {
                Ok(Instruction::Withdraw { amount })
            }
        } else {
            Err(PalletError::InvalidInstruction)
        }
    }

    /// Encodes the instruction in the form that `unpack` reads.
    pub fn pack(&self) -> (r: Vec<u8>)
        ensures
            r@ == spec_encode(*self),
    {
        let mut out: Vec<u8> = Vec::new();
        match *self {
            Instruction::InitVault => out.push(0u8),
            Instruction::InitBank => out.push(1u8),
            Instruction::Deposit { amount } => {
                out.push(2u8);
                let mut b = u64_to_le_bytes(amount);
                out.append(&mut b);
            },
            Instruction::Withdraw { amount } => {
                out.push(3u8);
                let mut b = u64_to_le_bytes(amount);
                out.append(&mut b);
            },
        }
        assert(out@ =~= spec_encode(*self));
        out
    }
}

/// Decoding the encoding of any instruction gives that instruction back.
pub proof fn lemma_decode_encode(ins: Instruction)
    ensures
        spec_decode(spec_encode(ins)) == Some(ins),
{
    lemma_auto_spec_u64_to_from_le_bytes();
    match ins {
        Instruction::Deposit { amount } => {
            let e = spec_encode(ins);
            assert(e.subrange(1, 9) =~= spec_u64_to_le_bytes(amount));
        },
        Instruction::Withdraw { amount } => {
            let e = spec_encode(ins);
            assert(e.subrange(1, 9) =~= spec_u64_to_le_bytes(amount));
        },
        _ => {},
    }
}

} // verus!
