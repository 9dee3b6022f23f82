use pallet::error::PalletError;
use pallet::instruction::Instruction;
use pallet::processor::{
    deposit_fund, init_bank, init_vault, process_instruction, withdraw_fund, Action, Plan,
    ProcessError, BANK_LAMPORTS, UNIT_SOL, VAULT_SPACE,
};
use pallet::state::Storage;
use pallet::utils::{bank_address, ensure_bank, ensure_bank_with, is_vault, update_internal, Region};
use solana_program::pubkey::Pubkey;

const PROGRAM: [u8; 32] = [42u8; 32];

fn region(key: [u8; 32], owner: [u8; 32], is_signer: bool, data: Vec<u8>) -> Region {
    Region { key, owner, is_signer, data }
}

fn derived() -> ([u8; 32], u8) {
    let (key, bump) =
        Pubkey::find_program_address(&[b"derive-this"], &Pubkey::new_from_array(PROGRAM));
    (key.to_bytes(), bump)
}

fn deposit_accounts(vault_data: Vec<u8>, receiver: [u8; 32]) -> Vec<Region> {
    vec![
        region([0; 32], [0; 32], false, vec![]),
        region([5; 32], PROGRAM, false, vault_data),
        region(derived().0, [0; 32], false, vec![]),
        region([3; 32], [0; 32], true, vec![]),
        region(receiver, [0; 32], false, vec![]),
    ]
}

fn withdraw_accounts(vault_data: Vec<u8>, withdrawer: [u8; 32], signed: bool) -> Vec<Region> {
    vec![
        region([0; 32], [0; 32], false, vec![]),
        region([5; 32], PROGRAM, false, vault_data),
        region(derived().0, [0; 32], false, vec![]),
        region(withdrawer, [0; 32], signed, vec![]),
    ]
}

fn apply(vault: &mut Region, plan: &Plan) {
    let (who, value) = plan.record.unwrap();
    assert_eq!(update_internal(vault, &who, value), Ok(()));
}

#[test]
fn bank_address_matches_host_derivation() {
    let got = bank_address(&PROGRAM).unwrap();
    assert_eq!(got, derived());
    assert_ne!(got.0, PROGRAM);
    assert_eq!(bank_address(&PROGRAM), bank_address(&PROGRAM));
}

#[test]
fn is_vault_checks_owner() {
    assert!(is_vault(&PROGRAM, &region([5; 32], PROGRAM, false, vec![])));
    assert!(!is_vault(&PROGRAM, &region([5; 32], [43; 32], false, vec![])));
}

#[test]
fn ensure_bank_accepts_only_derived_address() {
    let (key, bump) = derived();
    assert_eq!(ensure_bank(&PROGRAM, &region(key, [0; 32], false, vec![])), Some((key, bump)));
    assert_eq!(ensure_bank(&PROGRAM, &region([9; 32], [0; 32], false, vec![])), None);
    assert_eq!(ensure_bank_with(Some(([1; 32], 250)), &region([1; 32], [0; 32], false, vec![])), Some(([1; 32], 250)));
    assert_eq!(ensure_bank_with(Some(([1; 32], 250)), &region([2; 32], [0; 32], false, vec![])), None);
    assert_eq!(ensure_bank_with(None, &region([1; 32], [0; 32], false, vec![])), None);
}

#[test]
fn deposit_increases_balance() {
    let receiver = [7u8; 32];
    let mut accounts = deposit_accounts(vec![0; 1000], receiver);
    let plan = deposit_fund(&PROGRAM, &accounts, 500, Some(derived())).unwrap();
    assert_eq!(
        plan.action,
        Action::Transfer { from: [3; 32], to: derived().0, amount: 500, bank_bump: None }
    );
    assert_eq!(plan.record, Some((receiver, 500)));
    apply(&mut accounts[1], &plan);
    assert_eq!(Storage::decode_ledger(&accounts[1].data).get_balance(&receiver), 500);

    let plan = deposit_fund(&PROGRAM, &accounts, 300, Some(derived())).unwrap();
    apply(&mut accounts[1], &plan);
    assert_eq!(Storage::decode_ledger(&accounts[1].data).get_balance(&receiver), 800);
}

#[test]
fn withdraw_decreases_balance() {
    let w = [8u8; 32];
    let mut ledger = Storage::new();
    ledger.set_balance(&w, 800);
    let mut data = vec![0u8; 1000];
    ledger.write_into(&mut data).unwrap();
    let mut accounts = withdraw_accounts(data, w, true);
    let plan = withdraw_fund(&PROGRAM, &accounts, 300, Some(derived())).unwrap();
    assert_eq!(
        plan.action,
        Action::Transfer { from: derived().0, to: w, amount: 300, bank_bump: Some(derived().1) }
    );
    apply(&mut accounts[1], &plan);
    assert_eq!(Storage::decode_ledger(&accounts[1].data).get_balance(&w), 500);
}

#[test]
fn withdraw_over_balance_is_refused() {
    let w = [8u8; 32];
    let accounts = withdraw_accounts(vec![0; 1000], w, true);
    assert_eq!(
        withdraw_fund(&PROGRAM, &accounts, 1, Some(derived())),
        Err(ProcessError::Pallet(PalletError::NoFundAvailable))
    );
}

#[test]
fn unsigned_withdraw_is_refused() {
    let w = [8u8; 32];
    let mut ledger = Storage::new();
    ledger.set_balance(&w, 800);
    let mut data = vec![0u8; 1000];
    ledger.write_into(&mut data).unwrap();
    let accounts = withdraw_accounts(data.clone(), w, false);
    assert_eq!(
        withdraw_fund(&PROGRAM, &accounts, 300, Some(derived())),
        Err(ProcessError::Pallet(PalletError::IllegalWithdrawer))
    );
    assert_eq!(accounts[1].data, data);
}

#[test]
fn deposit_overflow_is_refused() {
    let receiver = [7u8; 32];
    let mut ledger = Storage::new();
    ledger.set_balance(&receiver, u64::MAX);
    let mut data = vec![0u8; 1000];
    ledger.write_into(&mut data).unwrap();
    let accounts = deposit_accounts(data, receiver);
    assert_eq!(
        deposit_fund(&PROGRAM, &accounts, 1, Some(derived())),
        Err(ProcessError::Pallet(PalletError::CantDeposit))
    );
}

#[test]
fn deposit_validates_vault_and_bank() {
    let receiver = [7u8; 32];
    let mut accounts = deposit_accounts(vec![0; 1000], receiver);
    assert_eq!(
        deposit_fund(&PROGRAM, &accounts, 5, None),
        Err(ProcessError::Pallet(PalletError::NotValidBank))
    );
    accounts[1].owner = [1; 32];
    assert_eq!(
        deposit_fund(&PROGRAM, &accounts, 5, Some(derived())),
        Err(ProcessError::Pallet(PalletError::NotValidVault))
    );
    assert_eq!(
        deposit_fund(&PROGRAM, &accounts[..4], 5, Some(derived())),
        Err(ProcessError::MissingAccounts)
    );
}

#[test]
fn init_plans() {
    let accounts = vec![
        region([0; 32], [0; 32], false, vec![]),
        region(derived().0, [0; 32], false, vec![]),
        region([6; 32], [0; 32], true, vec![]),
    ];
    assert_eq!(
        init_bank(&accounts, Some(derived())),
        Ok(Plan {
            action: Action::CreateBank {
                payer: [6; 32],
                bank: derived().0,
                lamports: BANK_LAMPORTS,
                owner: [0; 32],
                bump: derived().1,
            },
            record: None,
        })
    );
    assert_eq!(
        init_vault(&PROGRAM, &accounts),
        Ok(Plan {
            action: Action::CreateVault {
                payer: [6; 32],
                vault: derived().0,
                lamports: UNIT_SOL,
                space: VAULT_SPACE,
                owner: PROGRAM,
            },
            record: None,
        })
    );
    assert_eq!(init_vault(&PROGRAM, &accounts[..2]), Err(ProcessError::MissingAccounts));
}

#[test]
fn process_dispatches() {
    let receiver = [7u8; 32];
    let accounts = deposit_accounts(vec![0; 1000], receiver);
    let data = Instruction::Deposit { amount: 10 }.pack();
    let plan = process_instruction(&PROGRAM, &accounts, &data).unwrap();
    assert_eq!(plan.record, Some((receiver, 10)));
    assert_eq!(
        process_instruction(&PROGRAM, &accounts, &[9]),
        Err(ProcessError::Pallet(PalletError::InvalidInstruction))
    );
    let wrong_bank = {
        let mut a = deposit_accounts(vec![0; 1000], receiver);
        a[2].key = [9; 32];
        a
    };
    assert_eq!(
        process_instruction(&PROGRAM, &wrong_bank, &data),
        Err(ProcessError::Pallet(PalletError::NotValidBank))
    );
}

#[test]
fn update_fails_when_region_too_small() {
    let mut vault = region([5; 32], PROGRAM, false, vec![0; 40]);
    assert_eq!(update_internal(&mut vault, &[1; 32], 5), Err(PalletError::CantUpdate));
    assert_eq!(vault.data, vec![0; 40]);
}
