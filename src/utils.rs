use crate::error::PalletError;
use crate::state::{lemma_pack_upack, same_address, ledger_bytes, ledger_of, Address, Storage, ENTRY_LEN};
use vstd::prelude::*;

verus! {

/// The seed from which the bank address is derived: the ASCII text `derive-this`.
pub open spec fn spec_bank_seed() -> Seq<u8> {
    seq![100u8, 101, 114, 105, 118, 101, 45, 116, 104, 105, 115]
}

/// The bank seed as bytes.
pub fn bank_seed() -> (r: Vec<u8>)
    ensures
        r@ == spec_bank_seed(),
{
    let r = vec![100u8, 101, 114, 105, 118, 101, 45, 116, 104, 105, 115];
    assert(r@ =~= spec_bank_seed());
    r
}

/// The derived address and bump that the host computes for `seed` under
/// `program_id`, where one exists.
pub uninterp spec fn program_address(seed: Seq<u8>, program_id: Seq<u8>) -> Option<(Seq<u8>, u8)>;

/// Relies on `Pubkey::try_find_program_address` of solana-program: it returns
/// the derived address and bump for the seeds, a function of them alone, or
/// `None` where no bump gives an address off the curve.
#[verifier::external_body]
fn find_program_address(seed: &[u8], program_id: &Address) -> (r: Option<(Address, u8)>)
    ensures
        r is Some <==> program_address(seed@, program_id@) is Some,
        r is Some ==> ((r->0).0@, (r->0).1) == program_address(seed@, program_id@)->0,
{
    let id = solana_program::pubkey::Pubkey::new_from_array(*program_id);
    solana_program::pubkey::Pubkey::try_find_program_address(&[seed], &id).map(
        |(key, bump)| (key.to_bytes(), bump),
    )
}

/// An account region as the host hands it to the program.
#[derive(Debug)]
pub struct Region {
    pub key: Address,
    pub owner: Address,
    pub is_signer: bool,
    pub data: Vec<u8>,
}

/// The bank address and bump for a program, where one exists.
pub open spec fn spec_bank_address(program_id: Seq<u8>) -> Option<(Seq<u8>, u8)> {
    program_address(spec_bank_seed(), program_id)
}

/// The derived bank address and bump for `program_id`.
pub fn bank_address(program_id: &Address) -> (r: Option<(Address, u8)>)
    ensures
        r is Some <==> spec_bank_address(program_id@) is Some,
        r is Some ==> ((r->0).0@, (r->0).1) == spec_bank_address(program_id@)->0,
{
    let seed = bank_seed();
    find_program_address(seed.as_slice(), program_id)
}

/// Whether the region is owned by this program.
pub fn is_vault(program_id: &Address, vault_account: &Region) -> (r: bool)
    ensures
        r == (vault_account.owner@ == program_id@),
{
    same_address(&vault_account.owner, program_id)
}

/// The derived bank address and bump, where `bank` stands at that address.
pub open spec fn spec_ensure_bank(derived: Option<(Seq<u8>, u8)>, bank: Seq<u8>) -> Option<(Seq<u8>, u8)> {
    match derived {
        Some(d) => if d.0 == bank { Some(d) } else { None },
        None => None,
    }
}

/// A derived address and bump seen through the address's bytes.
pub open spec fn view_derived(d: Option<(Address, u8)>) -> Option<(Seq<u8>, u8)> {
    match d {
        Some(x) => Some((x.0@, x.1)),
        None => None,
    }
}

/// Given the derived bank address, returns it with its bump where the
/// region stands there, and nothing otherwise.
pub fn ensure_bank_with(derived: Option<(Address, u8)>, bank: &Region) -> (r: Option<(Address, u8)>)
    ensures
        r is Some <==> spec_ensure_bank(view_derived(derived), bank.key@) is Some,
        r is Some ==> r == derived && ((r->0).0@, (r->0).1) == spec_ensure_bank(
            view_derived(derived),
            bank.key@,
        )->0,
{
    match derived {
        Some(d) => {
            if same_address(&d.0, &bank.key) {
                Some(d)
            } else {
                None
            }
        },
        None => None,
    }
}

/// Derives the bank address for `program_id` and returns it with its bump
/// where `bank` stands there, and nothing otherwise.
pub fn ensure_bank(program_id: &Address, bank: &Region) -> (r: Option<(Address, u8)>)
    ensures
        r is Some <==> spec_ensure_bank(spec_bank_address(program_id@), bank.key@) is Some,
        spec_bank_address(program_id@) is None || (spec_bank_address(program_id@)->0).0
            != bank.key@ ==> r is None,
        r is Some ==> ((r->0).0@, (r->0).1) == spec_ensure_bank(
            spec_bank_address(program_id@),
            bank.key@,
        )->0,
{
    let derived = bank_address(program_id);
    assert(view_derived(derived) == spec_bank_address(program_id@));
    ensure_bank_with(derived, bank)
}

/// Whether the encoding of `ledger` fits in a region of `capacity` bytes.
pub open spec fn fits(ledger: Map<Seq<u8>, u64>, capacity: nat) -> bool {
    ledger.dom().len() <= u32::MAX && 4 + ENTRY_LEN * ledger.dom().len() <= capacity
}

/// Records `new_balance` for `receiver` in the ledger held by the vault
/// region; fails with `CantUpdate`, leaving the region as it was, where the
/// encoded ledger does not fit.
pub fn update_internal(vault: &mut Region, receiver: &Address, new_balance: u64) -> (r: Result<(), PalletError>)
    ensures
        final(vault).key == old(vault).key,
        final(vault).owner == old(vault).owner,
        final(vault).is_signer == old(vault).is_signer,
        final(vault).data@.len() == old(vault).data@.len(),
        r is Err ==> r->Err_0 == PalletError::CantUpdate && final(vault).data@ == old(vault).data@,
        r is Ok ==> ledger_of(final(vault).data@) == ledger_of(old(vault).data@).insert(receiver@, new_balance),
        r is Ok <==> fits(ledger_of(old(vault).data@).insert(receiver@, new_balance), old(vault).data@.len()),
{
    let mut storage = Storage::decode_ledger(vault.data.as_slice());
    storage.set_balance(receiver, new_balance);
    let r = storage.write_into(&mut vault.data);
    proof {
        storage.lemma_encoded_len();
        if r is Ok {
            let n = ledger_bytes(storage.entries()).len() as int;
            lemma_pack_upack(&storage, old(vault).data@.subrange(n, old(vault).data@.len() as int));
        }
    }
    r
}

} // verus!
