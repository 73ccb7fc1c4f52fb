use fees::account::{AccountId, InvalidAccountId};

#[test]
fn valid_account_ids_parse() {
    for id in ["aurora", "usdt.near", "a-b_c.d0", "00", &"a".repeat(64)] {
        assert_eq!(AccountId::parse(id).unwrap().as_str(), id);
    }
}

#[test]
fn invalid_account_ids_are_refused() {
    for id in ["", "a", "Alice.near", "a..b", "-ab", "ab.", "a b", &"a".repeat(65)] {
        assert_eq!(AccountId::parse(id).err(), Some(InvalidAccountId));
    }
}

#[test]
fn equal_ids_compare_equal() {
    assert!(AccountId::parse("usdt.near").unwrap() == AccountId::parse("usdt.near").unwrap());
    assert!(AccountId::parse("usdt.near").unwrap() != AccountId::parse("dai.near").unwrap());
}
