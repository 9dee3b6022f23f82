use crate::error::PalletError;
use crate::instruction::{spec_decode, Instruction};
use crate::state::{ledger_of, lemma_zeroed_region, spec_balance, Address, Storage};
use crate::utils::{
    bank_address, ensure_bank_with, is_vault, spec_bank_address, spec_ensure_bank, view_derived,
    Region,
};
use vstd::prelude::*;

verus! {

/// Lamports that fund a new vault region.
pub const UNIT_SOL: u64 = 1_000_000_000;

/// Lamports that fund the bank region: one whole SOL.
pub const BANK_LAMPORTS: u64 = 1_000_000_000;

/// Bytes allotted to a new vault region for its ledger.
pub const VAULT_SPACE: u64 = 1000;

/// The outside work that an instruction asks the host for.
#[derive(Debug, Clone, Copy, PartialEq, Eq)]
pub enum Action {
    /// Create `vault`, paid by `payer`, and assign it to `owner`.
    CreateVault { payer: Address, vault: Address, lamports: u64, space: u64, owner: Address },
    /// Create the bank at its derived address, signed with the bank seed and `bump`.
    CreateBank { payer: Address, bank: Address, lamports: u64, owner: Address, bump: u8 },
    /// Move `amount` from `from` to `to`; signed with the bank seed and the
    /// bump where the bank pays.
    Transfer { from: Address, to: Address, amount: u64, bank_bump: Option<u8> },
}

/// What an instruction comes to: the outside action, then, once it has
/// succeeded, the balance to record in the vault's ledger.
#[derive(Debug, Clone, Copy, PartialEq, Eq)]
pub struct Plan {
    pub action: Action,
    pub record: Option<(Address, u64)>,
}

/// Why an instruction was refused.
#[derive(Debug, Clone, Copy, PartialEq, Eq, Structural)]
pub enum ProcessError {
    /// Fewer accounts than the instruction reads.
    MissingAccounts,
    /// A failure of the program's own.
    Pallet(PalletError),
}

/// The outcome of a deposit with accounts `[system, vault, bank, sender, receiver]`.
pub open spec fn spec_deposit(
    program_id: Seq<u8>,
    accounts: Seq<Region>,
    amount: u64,
    derived: Option<(Seq<u8>, u8)>,
) -> Result<Plan, ProcessError> {
    if accounts.len() < 5 {
        Err(ProcessError::MissingAccounts)
    } else {
        let vault = accounts[1];
        let bank = accounts[2];
        let receiver = accounts[4];
        let balance = spec_balance(ledger_of(vault.data@), receiver.key@);
        if vault.owner@ != program_id {
            Err(ProcessError::Pallet(PalletError::NotValidVault))
        } else if spec_ensure_bank(derived, bank.key@) is None {
            Err(ProcessError::Pallet(PalletError::NotValidBank))
        } else if balance + amount > u64::MAX {
            Err(ProcessError::Pallet(PalletError::CantDeposit))
        } else {
            Ok(
                Plan {
                    action: Action::Transfer {
                        from: accounts[3].key,
                        to: bank.key,
                        amount,
                        bank_bump: None,
                    },
                    record: Some((receiver.key, (balance + amount) as u64)),
                },
            )
        }
    }
}

/// The outcome of a withdrawal with accounts `[system, vault, bank, withdrawer]`.
pub open spec fn spec_withdraw(
    program_id: Seq<u8>,
    accounts: Seq<Region>,
    amount: u64,
    derived: Option<(Seq<u8>, u8)>,
) -> Result<Plan, ProcessError> {
    if accounts.len() < 4 {
        Err(ProcessError::MissingAccounts)
    } else {
        let vault = accounts[1];
        let bank = accounts[2];
        let withdrawer = accounts[3];
        let balance = spec_balance(ledger_of(vault.data@), withdrawer.key@);
        if !withdrawer.is_signer {
            Err(ProcessError::Pallet(PalletError::IllegalWithdrawer))
        } else if vault.owner@ != program_id {
            Err(ProcessError::Pallet(PalletError::NotValidVault))
        } else if spec_ensure_bank(derived, bank.key@) is None {
            Err(ProcessError::Pallet(PalletError::NotValidBank))
        } else if balance < amount {
            Err(ProcessError::Pallet(PalletError::NoFundAvailable))
        } else {
            Ok(
                Plan {
                    action: Action::Transfer {
                        from: bank.key,
                        to: withdrawer.key,
                        amount,
                        bank_bump: Some((spec_ensure_bank(derived, bank.key@)->0).1),
                    },
                    record: Some((withdrawer.key, (balance - amount) as u64)),
                },
            )
        }
    }
}

/// The outcome of creating the bank with accounts `[system, bank, payer]`.
pub open spec fn spec_init_bank(accounts: Seq<Region>, derived: Option<(Seq<u8>, u8)>) -> Result<
    Plan,
    ProcessError,
> {
    if accounts.len() < 3 {
        Err(ProcessError::MissingAccounts)
    } else if spec_ensure_bank(derived, accounts[1].key@) is None {
        Err(ProcessError::Pallet(PalletError::NotValidBank))
    } else {
        Ok(
            Plan {
                action: Action::CreateBank {
                    payer: accounts[2].key,
                    bank: accounts[1].key,
                    lamports: BANK_LAMPORTS,
                    owner: accounts[0].key,
                    bump: (spec_ensure_bank(derived, accounts[1].key@)->0).1,
                },
                record: None,
            },
        )
    }
}

/// The outcome of creating the vault with accounts `[system, vault, payer]`.
pub open spec fn spec_init_vault(program_id: Address, accounts: Seq<Region>) -> Result<
    Plan,
    ProcessError,
> {
    if accounts.len() < 3 {
        Err(ProcessError::MissingAccounts)
    } else {
        Ok(
            Plan {
                action: Action::CreateVault {
                    payer: accounts[2].key,
                    vault: accounts[1].key,
                    lamports: UNIT_SOL,
                    space: VAULT_SPACE,
                    owner: program_id,
                },
                record: None,
            },
        )
    }
}

/// The outcome of an instruction, given the derived bank address.
pub open spec fn spec_process(
    program_id: Address,
    accounts: Seq<Region>,
    data: Seq<u8>,
    derived: Option<(Seq<u8>, u8)>,
) -> Result<Plan, ProcessError> {
    match spec_decode(data) {
        None => Err(ProcessError::Pallet(PalletError::InvalidInstruction)),
        Some(Instruction::InitVault) => spec_init_vault(program_id, accounts),
        Some(Instruction::InitBank) => spec_init_bank(accounts, derived),
        Some(Instruction::Deposit { amount }) => spec_deposit(program_id@, accounts, amount, derived),
        Some(Instruction::Withdraw { amount }) => spec_withdraw(
            program_id@,
            accounts,
            amount,
            derived,
        ),
    }
}

/// Decodes an instruction and decides what it comes to.
pub fn process_instruction(program_id: &Address, accounts: &[Region], instruction_data: &[u8]) -> (r:
    Result<Plan, ProcessError>)
    ensures
        r == spec_process(*program_id, accounts@, instruction_data@, spec_bank_address(program_id@)),
{
    let instruction = match Instruction::unpack_raw(instruction_data) {
        Ok(ins) => ins,
        Err(e) => return Err(ProcessError::Pallet(e)),
    };
    match instruction {
        Instruction::InitVault => init_vault(program_id, accounts),
        Instruction::InitBank => init_bank(accounts, bank_address(program_id)),
        Instruction::Deposit { amount } => deposit_fund(
            program_id,
            accounts,
            amount,
            bank_address(program_id),
        ),
        Instruction::Withdraw { amount } => withdraw_fund(
            program_id,
            accounts,
            amount,
            bank_address(program_id),
        ),
    }
}

/// Decides a deposit, given the derived bank address: the sender pays the
/// bank, then the receiver is credited in the ledger.
pub fn deposit_fund(
    program_id: &Address,
    accounts: &[Region],
    amount: u64,
    derived: Option<(Address, u8)>,
) -> (r: Result<Plan, ProcessError>)
    ensures
        r == spec_deposit(program_id@, accounts@, amount, view_derived(derived)),
{
    if accounts.len() < 5 {
        return Err(ProcessError::MissingAccounts);
    }
    let vault = &accounts[1];
    let bank = &accounts[2];
    let sender = &accounts[3];
    let receiver = &accounts[4];
    if !is_vault(program_id, vault) {
        return Err(ProcessError::Pallet(PalletError::NotValidVault));
    }
    if ensure_bank_with(derived, bank).is_none() {
        return Err(ProcessError::Pallet(PalletError::NotValidBank));
    }
    let ledger = Storage::decode_ledger(vault.data.as_slice());
    let balance = ledger.get_balance(&receiver.key);
    if balance > u64::MAX - amount {
        return Err(ProcessError::Pallet(PalletError::CantDeposit));
    }
    Ok(
        Plan {
            action: Action::Transfer { from: sender.key, to: bank.key, amount, bank_bump: None },
            record: Some((receiver.key, balance + amount)),
        },
    )
}

/// Decides a withdrawal, given the derived bank address: the bank pays the
/// signing withdrawer, then the withdrawer is debited in the ledger.
pub fn withdraw_fund(
    program_id: &Address,
    accounts: &[Region],
    amount: u64,
    derived: Option<(Address, u8)>,
) -> (r: Result<Plan, ProcessError>)
    ensures
        r == spec_withdraw(program_id@, accounts@, amount, view_derived(derived)),
        accounts@.len() >= 4 && !accounts@[3].is_signer ==> r == Err::<Plan, ProcessError>(
            ProcessError::Pallet(PalletError::IllegalWithdrawer),
        ),
{
    if accounts.len() < 4 {
        return Err(ProcessError::MissingAccounts);
    }
    let vault = &accounts[1];
    let bank = &accounts[2];
    let withdrawer = &accounts[3];
    if !withdrawer.is_signer {
        return Err(ProcessError::Pallet(PalletError::IllegalWithdrawer));
    }
    if !is_vault(program_id, vault) {
        return Err(ProcessError::Pallet(PalletError::NotValidVault));
    }
    let bump = match ensure_bank_with(derived, bank) {
        Some(d) => d.1,
        None => return Err(ProcessError::Pallet(PalletError::NotValidBank)),
    };
    let ledger = Storage::decode_ledger(vault.data.as_slice());
    let balance = ledger.get_balance(&withdrawer.key);
    if balance < amount {
        return Err(ProcessError::Pallet(PalletError::NoFundAvailable));
    }
    Ok(
        Plan {
            action: Action::Transfer {
                from: bank.key,
                to: withdrawer.key,
                amount,
                bank_bump: Some(bump),
            },
            record: Some((withdrawer.key, balance - amount)),
        },
    )
}

/// Decides the creation of the bank, given its derived address.
pub fn init_bank(accounts: &[Region], derived: Option<(Address, u8)>) -> (r: Result<
    Plan,
    ProcessError,
>)
    ensures
        r == spec_init_bank(accounts@, view_derived(derived)),
{
    if accounts.len() < 3 {
        return Err(ProcessError::MissingAccounts);
    }
    let system_account = &accounts[0];
    let bank_account = &accounts[1];
    let payer_account = &accounts[2];
    let bump = match ensure_bank_with(derived, bank_account) {
        Some(d) => d.1,
        None => return Err(ProcessError::Pallet(PalletError::NotValidBank)),
    };
    Ok(
        Plan {
            action: Action::CreateBank {
                payer: payer_account.key,
                bank: bank_account.key,
                lamports: BANK_LAMPORTS,
                owner: system_account.key,
                bump,
            },
            record: None,
        },
    )
}

/// Decides the creation of the vault, owned by this program.
pub fn init_vault(program_id: &Address, accounts: &[Region]) -> (r: Result<Plan, ProcessError>)
    ensures
        r == spec_init_vault(*program_id, accounts@),
{
    if accounts.len() < 3 {
        return Err(ProcessError::MissingAccounts);
    }
    Ok(
        Plan {
            action: Action::CreateVault {
                payer: accounts[2].key,
                vault: accounts[1].key,
                lamports: UNIT_SOL,
                space: VAULT_SPACE,
                owner: *program_id,
            },
            record: None,
        },
    )
}


/// Once a deposit has been decided and its record written to the vault, the
/// receiver's balance has grown by the amount, and every other balance is
/// as it was.
pub proof fn lemma_deposit_credits(
    program_id: Seq<u8>,
    accounts: Seq<Region>,
    amount: u64,
    derived: Option<(Seq<u8>, u8)>,
    written: Seq<u8>,
)
    requires
        spec_deposit(program_id, accounts, amount, derived) is Ok,
        ledger_of(written) == ledger_of(accounts[1].data@).insert(
            (spec_deposit(program_id, accounts, amount, derived)->Ok_0.record->0).0@,
            (spec_deposit(program_id, accounts, amount, derived)->Ok_0.record->0).1,
        ),
    ensures
        spec_balance(ledger_of(written), accounts[4].key@) == spec_balance(
            ledger_of(accounts[1].data@),
            accounts[4].key@,
        ) + amount,
        forall|a: Seq<u8>|
            a != accounts[4].key@ ==> spec_balance(ledger_of(written), a) == spec_balance(
                ledger_of(accounts[1].data@),
                a,
            ),
{
}

/// A first deposit into a freshly allocated, zero-filled vault leaves the
/// receiver with exactly the amount deposited.
pub proof fn lemma_first_deposit(
    program_id: Seq<u8>,
    accounts: Seq<Region>,
    amount: u64,
    derived: Option<(Seq<u8>, u8)>,
    written: Seq<u8>,
)
    requires
        accounts.len() >= 5,
        accounts[1].data@.len() >= 4,
        forall|i: int| 0 <= i < accounts[1].data@.len() ==> accounts[1].data@[i] == 0,
        spec_deposit(program_id, accounts, amount, derived) is Ok,
        ledger_of(written) == ledger_of(accounts[1].data@).insert(
            (spec_deposit(program_id, accounts, amount, derived)->Ok_0.record->0).0@,
            (spec_deposit(program_id, accounts, amount, derived)->Ok_0.record->0).1,
        ),
    ensures
        spec_balance(ledger_of(written), accounts[4].key@) == amount,
{
    lemma_zeroed_region(accounts[1].data@);
    lemma_deposit_credits(program_id, accounts, amount, derived, written);
}

/// Once a withdrawal has been decided and its record written to the vault,
/// the withdrawer's balance has shrunk by the amount, and every other
/// balance is as it was.
pub proof fn lemma_withdraw_debits(
    program_id: Seq<u8>,
    accounts: Seq<Region>,
    amount: u64,
    derived: Option<(Seq<u8>, u8)>,
    written: Seq<u8>,
)
    requires
        spec_withdraw(program_id, accounts, amount, derived) is Ok,
        ledger_of(written) == ledger_of(accounts[1].data@).insert(
            (spec_withdraw(program_id, accounts, amount, derived)->Ok_0.record->0).0@,
            (spec_withdraw(program_id, accounts, amount, derived)->Ok_0.record->0).1,
        ),
    ensures
        spec_balance(ledger_of(written), accounts[3].key@) == spec_balance(
            ledger_of(accounts[1].data@),
            accounts[3].key@,
        ) - amount,
        forall|a: Seq<u8>|
            a != accounts[3].key@ ==> spec_balance(ledger_of(written), a) == spec_balance(
                ledger_of(accounts[1].data@),
                a,
            ),
{
}

/// A withdrawal that the withdrawer has not signed is refused before any
/// outside action or ledger record is decided.
pub proof fn lemma_unsigned_withdraw_refused(
    program_id: Seq<u8>,
    accounts: Seq<Region>,
    amount: u64,
    derived: Option<(Seq<u8>, u8)>,
)
    requires
        accounts.len() >= 4,
        !accounts[3].is_signer,
    ensures
        spec_withdraw(program_id, accounts, amount, derived) == Err::<Plan, ProcessError>(
            ProcessError::Pallet(PalletError::IllegalWithdrawer),
        ),
{
}

} // verus!
