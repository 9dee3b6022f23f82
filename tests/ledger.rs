use pallet::error::PalletError;
use pallet::state::Storage;

fn addr(b: u8) -> [u8; 32] {
    [b; 32]
}

#[test]
fn empty_region_is_empty_ledger() {
    let st = Storage::decode_ledger(&[]);
    assert_eq!(st.len(), 0);
    assert_eq!(st.get_balance(&addr(1)), 0);
    assert!(Storage::upack(&[]).is_none());
}

#[test]
fn garbage_is_empty_ledger() {
    let st = Storage::decode_ledger(&[1, 2, 3, 4, 5, 6, 7]);
    assert_eq!(st.len(), 0);
    assert_eq!(st.get_balance(&addr(7)), 0);
    assert!(Storage::upack(&[1, 2, 3, 4, 5, 6, 7]).is_none());
}

#[test]
fn zeroed_region_is_empty_ledger() {
    let st = Storage::decode_ledger(&[0u8; 1000]);
    assert_eq!(st.len(), 0);
    assert!(Storage::upack(&[0u8; 1000]).is_some());
}

#[test]
fn empty_ledger_balance_is_zero() {
    let st = Storage::new();
    assert_eq!(st.get_balance(&addr(0)), 0);
    assert_eq!(st.get_balance(&addr(255)), 0);
}

#[test]
fn set_balance_inserts_and_overwrites() {
    let mut st = Storage::new();
    st.set_balance(&addr(1), 500);
    st.set_balance(&addr(2), 7);
    assert_eq!(st.get_balance(&addr(1)), 500);
    st.set_balance(&addr(1), 800);
    assert_eq!(st.get_balance(&addr(1)), 800);
    assert_eq!(st.get_balance(&addr(2)), 7);
    assert_eq!(st.len(), 2);
}

#[test]
fn pack_layout_exact() {
    let mut st = Storage::new();
    st.set_balance(&addr(9), 258);
    let mut region = vec![0xAAu8; 50];
    assert_eq!(st.write_into(&mut region), Ok(()));
    let mut expected = vec![1u8, 0, 0, 0];
    expected.extend_from_slice(&[9u8; 32]);
    expected.extend_from_slice(&[2, 1, 0, 0, 0, 0, 0, 0]);
    expected.extend_from_slice(&[0xAA; 6]);
    assert_eq!(region, expected);
}

#[test]
fn pack_then_decode_round_trip() {
    let mut st = Storage::new();
    st.set_balance(&addr(1), 500);
    st.set_balance(&addr(2), u64::MAX);
    let mut region = vec![0u8; 1000];
    assert_eq!(st.write_into(&mut region), Ok(()));
    let back = Storage::decode_ledger(&region);
    assert_eq!(back.len(), 2);
    assert_eq!(back.get_balance(&addr(1)), 500);
    assert_eq!(back.get_balance(&addr(2)), u64::MAX);
}

#[test]
fn write_into_too_small_fails_cant_update() {
    let mut st = Storage::new();
    st.set_balance(&addr(1), 1);
    let mut region = vec![7u8; 43];
    assert_eq!(st.write_into(&mut region), Err(PalletError::CantUpdate));
    assert_eq!(region, vec![7u8; 43]);
}

#[test]
fn decode_later_entry_wins() {
    let mut raw = vec![2u8, 0, 0, 0];
    raw.extend_from_slice(&[4u8; 32]);
    raw.extend_from_slice(&[1, 0, 0, 0, 0, 0, 0, 0]);
    raw.extend_from_slice(&[4u8; 32]);
    raw.extend_from_slice(&[9, 0, 0, 0, 0, 0, 0, 0]);
    let st = Storage::decode_ledger(&raw);
    assert_eq!(st.len(), 1);
    assert_eq!(st.get_balance(&addr(4)), 9);
}

#[test]
fn layout_agrees_with_borsh_map_encoding() {
    let mut map = std::collections::HashMap::new();
    map.insert(addr(1), 500u64);
    map.insert(addr(3), 77u64);
    let reference = borsh::to_vec(&map).unwrap();

    let mut st = Storage::new();
    st.set_balance(&addr(3), 77);
    st.set_balance(&addr(1), 500);
    let mut region = Vec::new();
    assert_eq!(st.pack(&mut region), Ok(()));
    assert_eq!(region, reference);
    assert_eq!(st.encode(), reference);

    let back = Storage::decode_ledger(&reference);
    assert_eq!(back.get_balance(&addr(1)), 500);
    assert_eq!(back.get_balance(&addr(3)), 77);
}

#[test]
fn pack_appends_to_vec() {
    let mut st = Storage::new();
    st.set_balance(&addr(2), 1);
    let mut out = Vec::new();
    assert_eq!(st.pack(&mut out), Ok(()));
    assert_eq!(out.len(), 44);
    let mut prefixed = vec![9u8];
    assert_eq!(st.pack(&mut prefixed), Ok(()));
    assert_eq!(prefixed[0], 9);
    assert_eq!(&prefixed[1..], &out[..]);
    assert_eq!(Storage::new().encode(), vec![0, 0, 0, 0]);
}

#[test]
fn entries_are_encoded_in_address_order() {
    let mut st = Storage::new();
    st.set_balance(&addr(9), 1);
    st.set_balance(&addr(2), 2);
    st.set_balance(&addr(5), 3);
    st.set_balance(&addr(2), 4);
    let bytes = st.encode();
    assert_eq!(bytes.len(), 4 + 3 * 40);
    assert_eq!(&bytes[0..4], &[3, 0, 0, 0]);
    assert_eq!(bytes[4], 2);
    assert_eq!(bytes[36], 4);
    assert_eq!(bytes[44], 5);
    assert_eq!(bytes[84], 9);
}
