use sidereal::pt_token::{Config, Error, PtToken};

const NOW: u64 = 1_770_000_000;
const MATURITY: u64 = NOW + 90 * 24 * 60 * 60;
const ADMIN: u64 = 1;
const TOKENIZER: u64 = 2;
const SY_TOKEN: u64 = 3;
const ALICE: u64 = 4;
const BOB: u64 = 5;
const LEDGER: u32 = 0;

fn initialized() -> PtToken {
    let mut token = PtToken::new();
    token
        .initialize(NOW, ADMIN, TOKENIZER, SY_TOKEN, MATURITY)
        .unwrap();
    token
}

#[test]
fn initialize_stores_config() {
    let token = initialized();
    assert_eq!(
        token.config(),
        Ok(Config {
            admin: ADMIN,
            tokenizer: TOKENIZER,
            sy_token: SY_TOKEN,
            maturity: MATURITY,
        })
    );
    assert_eq!(token.maturity(), Ok(MATURITY));
    assert_eq!(token.decimals(), 7);
    assert_eq!(token.symbol(), "sPT");
    assert_eq!(token.name(), "Sidereal Principal Token");
}

#[test]
fn pt_initialization_is_refused_twice_and_in_the_past() {
    let mut token = initialized();
    assert_eq!(
        token.initialize(NOW, ADMIN, TOKENIZER, SY_TOKEN, MATURITY),
        Err(Error::AlreadyInitialized)
    );
    let mut late = PtToken::new();
    assert_eq!(
        late.initialize(MATURITY, ADMIN, TOKENIZER, SY_TOKEN, MATURITY),
        Err(Error::InvalidMaturity)
    );
    assert_eq!(late.config(), Err(Error::NotInitialized));
    assert_eq!(late.maturity(), Err(Error::NotInitialized));
    assert_eq!(late.is_matured(NOW), Err(Error::NotInitialized));
    assert_eq!(late.mint(ALICE, 1), Err(Error::NotInitialized));
}

#[test]
fn redeem_rejects_before_maturity() {
    let token = initialized();
    let refused = token.redeemable_sy(NOW, 100).unwrap_err();
    assert_eq!(refused, Error::LiveMarket);
    assert_eq!(refused.code(), 5);
    assert_eq!(token.is_matured(NOW), Ok(false));
}

#[test]
fn redeem_returns_one_to_one_sy_after_maturity() {
    let token = initialized();
    assert_eq!(token.redeemable_sy(MATURITY, 100), Ok(100));
    assert_eq!(token.redeemable_sy(MATURITY, 0), Err(Error::InvalidAmount));
    assert_eq!(token.is_matured(MATURITY), Ok(true));
}

#[test]
fn mint_increases_balance_and_supply() {
    let mut token = initialized();
    token.mint(ALICE, 1_000).unwrap();
    assert_eq!(token.balance(ALICE), 1_000);
    assert_eq!(token.total_supply(), 1_000);
    assert_eq!(token.mint(ALICE, 0), Err(Error::InvalidAmount));
    assert_eq!(token.mint(BOB, i128::MAX), Err(Error::MathOverflow));
    assert_eq!(token.total_supply(), 1_000);
}

#[test]
fn transfer_moves_balance() {
    let mut token = initialized();
    token.mint(ALICE, 1_000).unwrap();
    token.transfer(ALICE, BOB, 400).unwrap();
    assert_eq!(token.balance(ALICE), 600);
    assert_eq!(token.balance(BOB), 400);
    assert_eq!(token.total_supply(), 1_000);
    token.transfer(ALICE, ALICE, 600).unwrap();
    assert_eq!(token.balance(ALICE), 600);
    assert_eq!(token.transfer(ALICE, BOB, -1), Err(Error::InvalidAmount));
}

#[test]
fn transfer_rejects_insufficient_balance() {
    let mut token = initialized();
    token.mint(ALICE, 100).unwrap();
    let refused = token.transfer(ALICE, BOB, 101).unwrap_err();
    assert_eq!(refused.code(), 6);
    assert_eq!(token.balance(ALICE), 100);
    assert_eq!(token.balance(BOB), 0);
}

#[test]
fn approve_and_transfer_from_spend_allowance() {
    let mut token = initialized();
    token.mint(ALICE, 1_000).unwrap();
    token
        .approve(LEDGER, ALICE, BOB, 500, NOW as u32 + 1_000)
        .unwrap();
    assert_eq!(token.allowance(LEDGER, ALICE, BOB), 500);

    token.transfer_from(LEDGER, BOB, ALICE, BOB, 300).unwrap();
    assert_eq!(token.balance(ALICE), 700);
    assert_eq!(token.balance(BOB), 300);
    assert_eq!(token.allowance(LEDGER, ALICE, BOB), 200);
}

#[test]
fn transfer_from_rejects_over_allowance() {
    let mut token = initialized();
    token.mint(ALICE, 1_000).unwrap();
    token
        .approve(LEDGER, ALICE, BOB, 100, NOW as u32 + 1_000)
        .unwrap();
    let refused = token.transfer_from(LEDGER, BOB, ALICE, BOB, 101).unwrap_err();
    assert_eq!(refused.code(), 7);
    assert_eq!(token.allowance(LEDGER, ALICE, BOB), 100);
    assert_eq!(token.balance(ALICE), 1_000);
}

#[test]
fn burn_reduces_balance_and_supply() {
    let mut token = initialized();
    token.mint(ALICE, 1_000).unwrap();
    token.burn(ALICE, 400).unwrap();
    assert_eq!(token.balance(ALICE), 600);
    assert_eq!(token.total_supply(), 600);
}

#[test]
fn burn_rejects_insufficient_balance() {
    let mut token = initialized();
    token.mint(ALICE, 100).unwrap();
    let refused = token.burn(ALICE, 101).unwrap_err();
    assert_eq!(refused.code(), 6);
    assert_eq!(token.total_supply(), 100);
    assert_eq!(token.burn(ALICE, 0), Err(Error::InvalidAmount));
}

#[test]
fn pt_burn_from_spends_the_allowance() {
    let mut token = initialized();
    token.mint(ALICE, 1_000).unwrap();
    token.approve(LEDGER, ALICE, BOB, 500, 10).unwrap();
    token.burn_from(LEDGER, BOB, ALICE, 200).unwrap();
    assert_eq!(token.balance(ALICE), 800);
    assert_eq!(token.total_supply(), 800);
    assert_eq!(token.allowance(LEDGER, ALICE, BOB), 300);
    assert_eq!(
        token.burn_from(LEDGER, BOB, ALICE, 301),
        Err(Error::InsufficientAllowance)
    );
}

#[test]
fn an_allowance_expires_and_is_filed_by_pair() {
    let mut token = initialized();
    token.approve(5, ALICE, BOB, 500, 10).unwrap();
    assert_eq!(token.allowance(10, ALICE, BOB), 500);
    assert_eq!(token.allowance(11, ALICE, BOB), 0);
    assert_eq!(token.allowance(5, BOB, ALICE), 0);
    assert_eq!(
        token.approve(5, ALICE, BOB, 1, 4),
        Err(Error::InvalidExpiration)
    );
    assert_eq!(
        token.approve(5, ALICE, BOB, -1, 10),
        Err(Error::InvalidAmount)
    );
    token.approve(5, ALICE, BOB, 0, 0).unwrap();
    assert_eq!(token.allowance(5, ALICE, BOB), 0);
}

#[test]
fn pt_error_codes_are_stable() {
    let all = [
        Error::AlreadyInitialized,
        Error::NotInitialized,
        Error::InvalidMaturity,
        Error::InvalidAmount,
        Error::LiveMarket,
        Error::InsufficientBalance,
        Error::InsufficientAllowance,
        Error::MathOverflow,
        Error::InvalidExpiration,
    ];
    for (i, error) in all.iter().enumerate() {
        assert_eq!(error.code(), i as u32 + 1);
    }
}
