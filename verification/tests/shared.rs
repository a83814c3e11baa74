use soroban_forge::errors::ForgeError;
use soroban_forge::types::{
    address_from_xdr, address_to_xdr, contains_address, Address, PaginationCursor, TimeBounds,
};

#[test]
fn time_bounds_are_inclusive_at_both_ends() {
    let b = TimeBounds { start: 10, end: 20 };
    assert!(!b.is_active(9));
    assert!(b.is_active(10));
    assert!(b.is_active(15));
    assert!(b.is_active(20));
    assert!(!b.is_active(21));
    let empty = TimeBounds { start: 5, end: 4 };
    assert!(!empty.is_active(4) && !empty.is_active(5));
}

#[test]
fn pagination_cursor_keeps_its_fields() {
    let c = PaginationCursor::new(3, 25);
    assert_eq!((c.offset, c.limit), (3, 25));
}

#[test]
fn error_codes_are_stable_and_distinct() {
    let all = [
        ForgeError::Unauthorized,
        ForgeError::NotFound,
        ForgeError::InvalidInput,
        ForgeError::InsufficientFunds,
        ForgeError::AlreadyInitialized,
        ForgeError::NotInitialized,
        ForgeError::DeadlineReached,
        ForgeError::InsufficientAllowance,
        ForgeError::ArithmeticOverflow,
        ForgeError::Custom,
        ForgeError::TokenTransferFailed,
        ForgeError::ContractInvocationFailed,
    ];
    let codes: Vec<u32> = all.iter().map(|e| e.code()).collect();
    assert_eq!(codes, (1..=12).collect::<Vec<u32>>());
}

#[test]
fn addresses_compare_by_kind_and_key() {
    assert_ne!(Address::account(7), Address::contract(7));
    let v = vec![Address::account(1), Address::contract(2)];
    assert!(contains_address(&v, &Address::contract(2)));
    assert!(!contains_address(&v, &Address::account(2)));
}

#[test]
fn account_address_xdr_has_its_tags_and_key() {
    let a = Address { contract: false, key0: 1, key1: 2, key2: 3, key3: 0x0102030405060708 };
    let x = address_to_xdr(&a);
    assert_eq!(x.len(), 44);
    assert_eq!(&x[0..4], &[0, 0, 0, 18]);
    assert_eq!(&x[4..8], &[0, 0, 0, 0]);
    assert_eq!(&x[8..12], &[0, 0, 0, 0]);
    assert_eq!(&x[12..20], &[0, 0, 0, 0, 0, 0, 0, 1]);
    assert_eq!(&x[36..44], &[1, 2, 3, 4, 5, 6, 7, 8]);
}

#[test]
fn contract_address_xdr_has_its_tags_and_key() {
    let a = Address::contract(0xff);
    let x = address_to_xdr(&a);
    assert_eq!(x.len(), 40);
    assert_eq!(&x[0..8], &[0, 0, 0, 18, 0, 0, 0, 1]);
    assert_eq!(x[39], 0xff);
}

#[test]
fn address_xdr_round_trips() {
    let samples = [
        Address::account(7),
        Address::contract(7),
        Address { contract: false, key0: u64::MAX, key1: 0, key2: 42, key3: 9 },
        Address { contract: true, key0: 5, key1: u64::MAX, key2: 1 << 63, key3: 0 },
    ];
    for a in samples {
        assert_eq!(address_from_xdr(&address_to_xdr(&a)), Some(a));
    }
}

#[test]
fn malformed_address_xdr_is_refused() {
    let mut x = address_to_xdr(&Address::account(3));
    x.pop();
    assert_eq!(address_from_xdr(&x), None);
    let mut y = address_to_xdr(&Address::account(3));
    y[3] = 17;
    assert_eq!(address_from_xdr(&y), None);
    let mut z = address_to_xdr(&Address::account(3));
    z[11] = 1;
    assert_eq!(address_from_xdr(&z), None);
    let mut c = address_to_xdr(&Address::contract(3));
    c[7] = 0;
    assert_eq!(address_from_xdr(&c), None);
    assert_eq!(address_from_xdr(&Vec::new()), None);
}
