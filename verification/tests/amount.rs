use rs_simple_blockchain::amount::Amount;
use rs_simple_blockchain::amount::MAX_MONEY_UNITS;
use rs_simple_blockchain::error::BlockchainError;

#[test]
fn format_amount() {
    assert_eq!(Amount(0).to_string(), "0.00000000".to_owned());
    assert_eq!(Amount(1).to_string(), "0.00000001".to_owned());
    assert_eq!(Amount(100).to_string(), "0.00000100".to_owned());
    assert_eq!(Amount::coin().to_string(), "1.00000000".to_owned());
    assert_eq!(Amount::coin().mul(10).to_string(), "10.00000000".to_owned());
    assert_eq!(Amount::coin().mul(1000).to_string(), "1,000.00000000".to_owned());
    assert_eq!(Amount::coin().mul(1234567).to_string(), "1,234,567.00000000".to_owned());
    assert_eq!(Amount::max_money().to_string(), "100,000,000,000.00000000".to_owned());
}

#[test]
fn parse_reads_what_format_writes() {
    for u in [0u64, 1, 99, 100_000_000, 123_456_789_012, MAX_MONEY_UNITS, u64::MAX] {
        assert_eq!(Amount::parse(&Amount(u).to_string()), Some(Amount(u)));
    }
}

#[test]
fn parse_refuses_other_text() {
    assert_eq!(Amount::parse(""), None);
    assert_eq!(Amount::parse("1"), None);
    assert_eq!(Amount::parse("1.0"), None);
    assert_eq!(Amount::parse("1000.00000000"), None);
    assert_eq!(Amount::parse("01.00000000"), None);
    assert_eq!(Amount::parse("1,000.0000000"), None);
    assert_eq!(Amount::parse("99999999999999999999999.00000000"), None);
    assert_eq!(Amount::parse("1,000.00000000"), Some(Amount(100_000_000_000)));
}

#[test]
fn try_from_checks_the_range() {
    assert_eq!(Amount::try_from(MAX_MONEY_UNITS).unwrap(), Amount(MAX_MONEY_UNITS));
    assert!(matches!(
        Amount::try_from(MAX_MONEY_UNITS + 1),
        Err(BlockchainError::MonetaryAmountTooLarge(v)) if v == MAX_MONEY_UNITS + 1
    ));
}
