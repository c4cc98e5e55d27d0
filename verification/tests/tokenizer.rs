use sidereal::tokenizer::{Config, Error, Position, Tokenizer, MAX_YIELD_FEE_BPS};
use soroban_sdk::testutils::EnvTestConfig;
use soroban_sdk::Env;

const WAD: i128 = 1_000_000_000_000_000_000;
const NOW: u64 = 1_770_000_000;
const MATURITY: u64 = NOW + 90 * 24 * 60 * 60;

const CONTRACT: u64 = 1;
const ADMIN: u64 = 2;
const SY: u64 = 3;
const PT: u64 = 4;
const YT: u64 = 5;
const FEE_RECIPIENT: u64 = 6;
const STRANGER: u64 = 7;

fn host() -> Env {
    Env::new_with_config(EnvTestConfig {
        capture_snapshot_at_drop: false,
    })
}

fn open(recipient: u64, fee: i128) -> Result<Tokenizer, Error> {
    let mut tokenizer = Tokenizer::new();
    tokenizer.initialize(NOW, CONTRACT, ADMIN, SY, PT, YT, MATURITY, recipient, fee)?;
    Ok(tokenizer)
}

fn market(fee: i128) -> Tokenizer {
    open(FEE_RECIPIENT, fee).unwrap()
}

#[test]
fn lib_initialize_stores_config() {
    let tokenizer = market(0);
    assert_eq!(
        tokenizer.config(),
        Ok(Config {
            admin: ADMIN,
            sy_token: SY,
            pt_token: PT,
            yt_token: YT,
            maturity: MATURITY,
            fee_recipient: FEE_RECIPIENT,
            yield_fee_bps: 0,
        })
    );
    assert_eq!(tokenizer.maturity(), Ok(MATURITY));
    assert_eq!(tokenizer.is_matured(NOW), Ok(false));
    assert_eq!(tokenizer.is_matured(MATURITY), Ok(true));
}

#[test]
fn initialize_rejects_past_maturity() {
    let mut tokenizer = Tokenizer::new();
    let refused = tokenizer
        .initialize(NOW, CONTRACT, ADMIN, SY, PT, YT, NOW, FEE_RECIPIENT, 0)
        .unwrap_err();
    assert_eq!(refused.code(), 3);
}

#[test]
fn initialize_rejects_a_fee_above_the_ceiling() {
    let refused = open(FEE_RECIPIENT, MAX_YIELD_FEE_BPS + 1).unwrap_err();
    assert_eq!(refused.code(), 10);
}

#[test]
fn initialize_rejects_a_negative_fee() {
    let refused = open(FEE_RECIPIENT, -1).unwrap_err();
    assert_eq!(refused.code(), 10);
}

#[test]
fn initialize_accepts_a_fee_at_the_ceiling() {
    let tokenizer = market(MAX_YIELD_FEE_BPS);
    assert_eq!(tokenizer.config().unwrap().yield_fee_bps, MAX_YIELD_FEE_BPS);
}

#[test]
fn a_fee_market_cannot_pay_itself() {
    let refused = open(CONTRACT, 500).unwrap_err();
    assert_eq!(refused.code(), 12);
}

#[test]
fn a_fee_market_cannot_pay_one_of_its_own_tokens() {
    for target in [SY, PT, YT] {
        assert_eq!(
            open(target, 500),
            Err(Error::InvalidFeeRecipient),
            "a fee market must refuse to pay its own token {target}"
        );
    }
}

#[test]
fn a_fee_free_market_may_name_any_recipient() {
    let tokenizer = open(CONTRACT, 0).unwrap();
    assert_eq!(tokenizer.config().unwrap().yield_fee_bps, 0);
}

#[test]
fn reinitialize_cannot_reprice_a_live_market() {
    let mut tokenizer = market(500);
    assert_eq!(tokenizer.config().unwrap().yield_fee_bps, 500);
    let repeat = tokenizer.initialize(
        NOW,
        CONTRACT,
        ADMIN,
        SY,
        PT,
        YT,
        MATURITY,
        FEE_RECIPIENT,
        0,
    );
    assert_eq!(
        repeat,
        Err(Error::AlreadyInitialized),
        "a second initialize must not reprice a live market"
    );
    assert_eq!(tokenizer.config().unwrap().yield_fee_bps, 500);
}

#[test]
fn admin_can_update_yield_fee() {
    let mut tokenizer = market(500);
    let set = tokenizer.set_fee(CONTRACT, ADMIN, 750).unwrap();
    assert_eq!(set.admin, ADMIN);
    assert_eq!((set.old_fee_bps, set.new_fee_bps), (500, 750));
    assert_eq!(tokenizer.config().unwrap().yield_fee_bps, 750);
}

#[test]
fn non_admin_cannot_update_yield_fee() {
    let mut tokenizer = market(500);
    let refused = tokenizer.set_fee(CONTRACT, STRANGER, 750).unwrap_err();
    assert_eq!(refused.code(), 11);
    assert_eq!(tokenizer.config().unwrap().yield_fee_bps, 500);
}

#[test]
fn yield_fee_update_rejects_a_fee_above_the_ceiling() {
    let mut tokenizer = market(0);
    let refused = tokenizer
        .set_fee(CONTRACT, ADMIN, MAX_YIELD_FEE_BPS + 1)
        .unwrap_err();
    assert_eq!(refused.code(), 10);
}

#[test]
fn yield_fee_update_rejects_a_negative_fee() {
    let mut tokenizer = market(0);
    let refused = tokenizer.set_fee(CONTRACT, ADMIN, -1).unwrap_err();
    assert_eq!(refused.code(), 10);
}

#[test]
fn raising_the_fee_revalidates_the_recipient() {
    for target in [CONTRACT, SY, PT, YT] {
        let mut tokenizer = open(target, 0).unwrap();
        assert_eq!(
            tokenizer.set_fee(CONTRACT, ADMIN, 500),
            Err(Error::InvalidFeeRecipient),
            "raising the fee must refuse recipient {target}"
        );
        assert_eq!(tokenizer.config().unwrap().yield_fee_bps, 0);
    }
}

#[test]
fn a_good_recipient_still_admits_a_raise_from_zero() {
    let mut tokenizer = market(0);
    tokenizer.set_fee(CONTRACT, ADMIN, 500).unwrap();
    assert_eq!(tokenizer.config().unwrap().yield_fee_bps, 500);
}

#[test]
fn preview_split_returns_equal_pt_and_yt() {
    let tokenizer = market(0);
    assert_eq!(
        tokenizer.preview_split(&host(), NOW, WAD, 100),
        Ok((100, 100))
    );
}

#[test]
fn preview_recombine_rejects_mismatched_pt_and_yt() {
    let tokenizer = market(0);
    let refused = tokenizer
        .preview_recombine(&host(), NOW, WAD, 100, 100, 100, 99)
        .unwrap_err();
    assert_eq!(refused.code(), 5);
}

#[test]
fn preview_split_rejects_matured_market() {
    let tokenizer = market(0);
    let refused = tokenizer
        .preview_split(&host(), MATURITY, WAD, 100)
        .unwrap_err();
    assert_eq!(refused.code(), 6);
}

#[test]
fn split_before_initialize_fails() {
    let mut tokenizer = Tokenizer::new();
    let refused = tokenizer.split(&host(), NOW, WAD, 100).unwrap_err();
    assert_eq!(refused.code(), 2);
}

#[test]
fn recombine_before_initialize_fails() {
    let mut tokenizer = Tokenizer::new();
    let refused = tokenizer
        .recombine(&host(), NOW, WAD, 100, 100, 10, 10)
        .unwrap_err();
    assert_eq!(refused.code(), 2);
}

#[test]
fn redeem_at_maturity_before_initialize_fails() {
    let mut tokenizer = Tokenizer::new();
    let refused = tokenizer
        .redeem_at_maturity(&host(), NOW, WAD, 100, 100, 10)
        .unwrap_err();
    assert_eq!(refused.code(), 2);
}

#[test]
fn splits_round_the_face_down() {
    let env = host();
    let mut tokenizer = market(0);
    let rate = 1_500_000_000_000_000_000;
    assert_eq!(tokenizer.split(&env, NOW, rate, 3), Ok((4, 4)));
    assert_eq!(tokenizer.observed_rate, Some(rate));
    assert_eq!(tokenizer.split(&env, NOW, rate, 0), Err(Error::InvalidAmount));
    assert_eq!(tokenizer.preview_split(&env, NOW, rate, 3), Ok((4, 4)));
    assert_eq!(tokenizer.preview_split(&env, NOW, 1, 1), Ok((0, 0)));
    assert_eq!(tokenizer.split(&env, NOW, 1, 1), Err(Error::InvalidAmount));
    assert_eq!(
        tokenizer.split(&env, NOW, i128::MAX, i128::MAX),
        Err(Error::MathOverflow)
    );
    assert_eq!(tokenizer.observed_rate, Some(rate));
    assert_eq!(
        tokenizer.preview_split(&env, NOW, rate, -1),
        Err(Error::InvalidAmount)
    );
    assert_eq!(
        tokenizer.split(&env, NOW, i128::MAX, WAD),
        Ok((i128::MAX, i128::MAX)),
        "a product past the range is carried in wide integers"
    );
}

#[test]
fn principal_is_face_or_a_fair_share() {
    let env = host();
    let mut tokenizer = market(0);
    assert_eq!(
        tokenizer.recombine(&env, NOW, 2 * WAD, 1_000, 1_000, 100, 100),
        Ok(50)
    );
    assert_eq!(
        tokenizer.recombine(&env, NOW, 2 * WAD, 300, 1_000, 100, 100),
        Ok(30),
        "a short escrow is shared"
    );
    assert_eq!(
        tokenizer.preview_recombine(&env, NOW, 2 * WAD, 300, 1_000, 1, 1),
        Err(Error::InvalidAmount),
        "what would pay nothing is refused in the preview too"
    );
    assert_eq!(
        tokenizer.recombine(&env, NOW, 2 * WAD, 300, 1_000, 1, 1),
        Err(Error::InvalidAmount)
    );
    assert_eq!(
        tokenizer.recombine(&env, NOW, WAD, 300, 1_000, 0, 1),
        Err(Error::InvalidAmount)
    );
    assert_eq!(
        tokenizer.recombine(&env, NOW, WAD, 300, 1_000, 2, 1),
        Err(Error::AmountMismatch)
    );
    assert_eq!(
        tokenizer.recombine(&env, MATURITY, WAD, 300, 1_000, 1, 1),
        Err(Error::Matured)
    );
    assert_eq!(
        tokenizer.redeem_at_maturity(&env, NOW, WAD, 300, 1_000, 1),
        Err(Error::LiveMarket)
    );
}

#[test]
fn a_preview_is_what_recombining_returns() {
    let env = host();
    let tokenizer = market(0);
    for (now, rate, escrow, supply, pt, yt) in [
        (NOW, 2 * WAD, 1_000, 1_000, 100, 100),
        (NOW, 2 * WAD, 300, 1_000, 100, 100),
        (NOW, 2 * WAD, 300, 1_000, 1, 1),
        (NOW, 2 * WAD, 0, 1_000, 100, 100),
        (NOW, WAD, 300, 1_000, 0, 1),
        (NOW, WAD, 300, 1_000, 1, -1),
        (NOW, WAD, 300, 1_000, 2, 1),
        (NOW, 1, i128::MAX, 1, i128::MAX, i128::MAX),
        (MATURITY, WAD, 300, 1_000, 1, 1),
    ] {
        let quoted = tokenizer.preview_recombine(&env, now, rate, escrow, supply, pt, yt);
        let mut executed = tokenizer;
        assert_eq!(
            executed.recombine(&env, now, rate, escrow, supply, pt, yt),
            quoted
        );
        assert_eq!(executed.observed_rate.is_some(), quoted.is_ok());
    }
}

#[test]
fn refusals_need_no_rate_and_no_supply() {
    let env = host();
    let mut tokenizer = market(0);
    for (now, pt, yt, error) in [
        (NOW, 2, 1, Error::AmountMismatch),
        (NOW, 0, 1, Error::InvalidAmount),
        (NOW, 1, 0, Error::InvalidAmount),
        (MATURITY, 1, 1, Error::Matured),
    ] {
        assert_eq!(tokenizer.check_recombine(now, pt, yt), Err(error));
        assert_eq!(
            tokenizer.preview_recombine(&env, now, 0, 0, 0, pt, yt),
            Err(error)
        );
        assert_eq!(tokenizer.recombine(&env, now, 0, 0, 0, pt, yt), Err(error));
    }
    assert_eq!(tokenizer.check_recombine(NOW, 1, 1), Ok(()));
    assert_eq!(
        tokenizer.redeem_at_maturity(&env, NOW, 0, 0, 0, 1),
        Err(Error::LiveMarket)
    );
    assert_eq!(
        tokenizer.redeem_at_maturity(&env, MATURITY, 0, 0, 0, 0),
        Err(Error::InvalidAmount)
    );
}

#[test]
fn the_freeze_takes_the_last_observation_and_keeps_it() {
    let env = host();
    let mut tokenizer = market(0);
    assert_eq!(tokenizer.maturity_rate(), Ok(0));
    assert_eq!(tokenizer.observe_rate(NOW, 5 * WAD), Ok(5 * WAD));
    assert_eq!(tokenizer.observe_rate(MATURITY, WAD), Err(Error::Matured));
    assert_eq!(
        tokenizer.freeze_maturity_rate(MATURITY - 1, WAD),
        Err(Error::LiveMarket)
    );
    assert_eq!(
        tokenizer.redeem_at_maturity(&env, MATURITY, 9 * WAD, 1_000, 1_000, 500),
        Ok(100)
    );
    assert_eq!(tokenizer.maturity_rate(), Ok(5 * WAD));
    assert_eq!(
        tokenizer.freeze_maturity_rate(MATURITY + 9, 7 * WAD),
        Ok(5 * WAD)
    );
    assert_eq!(tokenizer.claim_rate(MATURITY + 9, 7 * WAD), Ok(5 * WAD));

    let mut unseen = market(0);
    assert_eq!(unseen.freeze_maturity_rate(MATURITY, 3 * WAD), Ok(3 * WAD));
    assert_eq!(unseen.claim_rate(MATURITY, 4 * WAD), Ok(3 * WAD));
}

#[test]
fn claims_are_paid_from_the_surplus_alone() {
    let env = host();
    let tokenizer = market(500);
    let paid = tokenizer.claim_yield(&env, 2 * WAD, 1_000, 700, 1_000).unwrap();
    assert_eq!((paid.pay, paid.net, paid.fee), (200, 190, 10));
    let paid = tokenizer.claim_yield(&env, 2 * WAD, 100, 700, 1_000).unwrap();
    assert_eq!((paid.pay, paid.net, paid.fee), (100, 95, 5));
    let paid = tokenizer.claim_yield(&env, 2 * WAD, 100, 500, 1_000).unwrap();
    assert_eq!((paid.pay, paid.net, paid.fee), (0, 0, 0));
    let paid = tokenizer.claim_yield(&env, 2 * WAD, 100, 501, 1_001).unwrap();
    assert_eq!(paid.pay, 0, "the reservation rounds up");
    assert_eq!(
        tokenizer.claim_yield(&env, 1, 100, 500, i128::MAX),
        Err(Error::MathOverflow)
    );
    assert_eq!(
        Tokenizer::new().claim_yield(&env, WAD, 1, 1, 1),
        Err(Error::NotInitialized)
    );
}

#[test]
fn positions_are_reported_once_the_market_is_open() {
    assert_eq!(
        market(0).position(3, 4),
        Ok(Position {
            pt_balance: 3,
            yt_balance: 4
        })
    );
    assert_eq!(Tokenizer::new().position(3, 4), Err(Error::NotInitialized));
    assert_eq!(Tokenizer::require_positive_amount(0), Err(Error::InvalidAmount));
    assert_eq!(Tokenizer::require_positive_amount(1), Ok(()));
}

#[test]
fn tokenizer_error_codes_are_stable() {
    let all = [
        Error::AlreadyInitialized,
        Error::NotInitialized,
        Error::InvalidMaturity,
        Error::InvalidAmount,
        Error::AmountMismatch,
        Error::Matured,
        Error::MathOverflow,
        Error::LiveMarket,
        Error::Insolvent,
        Error::InvalidFee,
        Error::NotAdmin,
        Error::InvalidFeeRecipient,
    ];
    for (i, error) in all.iter().enumerate() {
        assert_eq!(error.code(), i as u32 + 1);
    }
}
