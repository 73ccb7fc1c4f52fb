use fees::account::AccountId;
use fees::calculator::{FeeError, FeesCalculator};

fn account(s: &str) -> AccountId {
    AccountId::parse(s).unwrap()
}

fn owner() -> AccountId {
    account("owner.near")
}

#[test]
fn test_check_supported_tokens() {
    let aurora = account("aurora");
    let target_address = "0xea2342".to_string();
    let usdt = account("usdt.near");
    let mut contract = FeesCalculator::new(owner(), vec![]);

    assert_eq!(
        contract.calculate_fees(1000, &usdt, &aurora, target_address.clone()),
        0
    );

    contract.add_supported_token(usdt.duplicate()).unwrap();

    assert_eq!(
        contract.calculate_fees(1000, &usdt, &aurora, target_address.clone()),
        50
    );

    contract.remove_supported_token(&usdt).unwrap();

    assert_eq!(
        contract.calculate_fees(1000, &usdt, &aurora, target_address),
        0
    );
}

#[test]
fn test_set_percent() {
    let mut contract = FeesCalculator::new(owner(), vec![]);

    assert_eq!(contract.get_fee_percent(), "5.00");
    contract.set_fee_percent(&owner(), "6").unwrap();
    assert_eq!(contract.get_fee_percent(), "6.00");
    contract.set_fee_percent(&owner(), "7.5").unwrap();
    assert_eq!(contract.get_fee_percent(), "7.50");
}

#[test]
fn test_set_percent_with_many_decimals() {
    let mut contract = FeesCalculator::new(owner(), vec![]);
    let err = contract.set_fee_percent(&owner(), "6.123").unwrap_err();
    assert!(err
        .message()
        .contains("Couldn't parse percent: provided percent could contain only 2 decimals"));
    assert_eq!(contract.percent(), 500);
}

#[test]
fn test_set_too_high_percents() {
    let mut contract = FeesCalculator::new(owner(), vec![]);
    let err = contract.set_fee_percent(&owner(), "12.12").unwrap_err();
    assert!(err
        .message()
        .contains("Couldn't parse percent: provided percent is more than 10%"));
    assert_eq!(contract.percent(), 500);
}

#[test]
fn only_owner_sets_percent() {
    let mut contract = FeesCalculator::new(owner(), vec![]);
    let err = contract.set_fee_percent(&account("mallory.near"), "6").unwrap_err();
    assert!(matches!(err, FeeError::Unauthorized));
    assert_eq!(contract.get_fee_percent(), "5.00");
    assert_eq!(contract.owner().as_str(), "owner.near");
}

#[test]
fn fee_formula_and_saturation() {
    let usdt = account("usdt.near");
    let aurora = account("aurora");
    let mut contract = FeesCalculator::new(owner(), vec![usdt.duplicate()]);
    assert_eq!(contract.calculate_fees(0, &usdt, &aurora, String::new()), 0);
    assert_eq!(contract.calculate_fees(19, &usdt, &aurora, String::new()), 0);
    assert_eq!(contract.calculate_fees(20, &usdt, &aurora, String::new()), 1);
    assert_eq!(contract.calculate_fees(12345, &usdt, &aurora, String::new()), 617);
    assert_eq!(
        contract.calculate_fees(u128::MAX, &usdt, &aurora, String::new()),
        u128::MAX / 10000
    );
    contract.set_fee_percent(&owner(), "10").unwrap();
    assert_eq!(contract.calculate_fees(1000, &usdt, &aurora, String::new()), 100);
    contract.set_fee_percent(&owner(), "0.01").unwrap();
    assert_eq!(contract.calculate_fees(1000, &usdt, &aurora, String::new()), 0);
    assert_eq!(contract.calculate_fees(10000, &usdt, &aurora, String::new()), 1);
}

#[test]
fn fee_grows_with_amount() {
    let usdt = account("usdt.near");
    let aurora = account("aurora");
    let contract = FeesCalculator::new(owner(), vec![usdt.duplicate()]);
    let mut last = 0;
    for amount in [0u128, 1, 19, 20, 21, 999, 1000, 1_000_000, u128::MAX / 500, u128::MAX] {
        let fee = contract.calculate_fees(amount, &usdt, &aurora, String::new());
        assert!(last <= fee);
        last = fee;
    }
}

#[test]
fn unlisted_token_pays_nothing() {
    let usdt = account("usdt.near");
    let dai = account("dai.near");
    let aurora = account("aurora");
    let mut contract = FeesCalculator::new(owner(), vec![usdt]);
    contract.set_fee_percent(&owner(), "10").unwrap();
    assert_eq!(contract.calculate_fees(1000, &dai, &aurora, String::new()), 0);
    assert_eq!(contract.calculate_fees(u128::MAX, &dai, &aurora, String::new()), 0);
}

#[test]
fn adding_twice_and_removing_absent_change_nothing() {
    let usdt = account("usdt.near");
    let mut contract = FeesCalculator::new(owner(), vec![]);
    contract.add_supported_token(usdt.duplicate()).unwrap();
    let err = contract.add_supported_token(usdt.duplicate()).unwrap_err();
    assert!(matches!(err, FeeError::AlreadyPresent));
    assert_eq!(err.message(), "Token is already present");
    assert_eq!(contract.supported_tokens().len(), 1);

    let dai = account("dai.near");
    let err = contract.remove_supported_token(&dai).unwrap_err();
    assert_eq!(err.message(), "Nothing to remove, token: dai.near hasn't been added");
    let listed: Vec<&str> = contract.supported_tokens().iter().map(|t| t.as_str()).collect();
    assert_eq!(listed, vec!["usdt.near"]);
}

#[test]
fn new_drops_duplicate_tokens() {
    let contract = FeesCalculator::new(
        owner(),
        vec![account("a.near"), account("b.near"), account("a.near")],
    );
    let listed: Vec<&str> = contract.supported_tokens().iter().map(|t| t.as_str()).collect();
    assert_eq!(listed, vec!["a.near", "b.near"]);
    assert_eq!(contract.percent(), 500);
}
