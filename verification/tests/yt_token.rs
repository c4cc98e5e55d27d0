use sidereal::tokenizer::Tokenizer;
use sidereal::yt_token::{shares_for_face, Config, Error, RateSource, YtToken};
use soroban_sdk::testutils::EnvTestConfig;
use soroban_sdk::Env;

const WAD: i128 = 1_000_000_000_000_000_000;
const NOW: u64 = 1_770_000_000;
const MATURITY: u64 = NOW + 90 * 24 * 60 * 60;
const RATE_1_00: i128 = WAD;
const RATE_1_05: i128 = 1_050_000_000_000_000_000;
const RATE_1_10: i128 = 1_100_000_000_000_000_000;

const ADMIN: u64 = 1;
const TOKENIZER: u64 = 2;
const SY: u64 = 3;
const PT: u64 = 4;
const YT: u64 = 5;
const ALICE: u64 = 6;
const BOB: u64 = 7;
const FRESH: u64 = 8;
const LEDGER: u32 = 0;

/// A yield token, the tokenizer its holders' own calls take their rate from,
/// and the rate of the SY behind both.
struct Fixture {
    env: Env,
    yt: YtToken,
    tokenizer: Tokenizer,
    now: u64,
    live: i128,
}

fn fixture(now: u64) -> Fixture {
    let env = Env::new_with_config(EnvTestConfig {
        capture_snapshot_at_drop: false,
    });
    let mut yt = YtToken::new();
    yt.initialize(now, ADMIN, TOKENIZER, SY, MATURITY).unwrap();
    let mut tokenizer = Tokenizer::new();
    tokenizer
        .initialize(now, TOKENIZER, ADMIN, SY, PT, YT, MATURITY, ADMIN, 0)
        .unwrap();
    Fixture {
        env,
        yt,
        tokenizer,
        now,
        live: WAD,
    }
}

impl Fixture {
    fn mint(&mut self, to: u64, n: i128) {
        self.yt.mint(&self.env, to, n, self.live).unwrap();
    }

    fn settle(&mut self, holder: u64, rate: i128) -> i128 {
        self.yt.settle(&self.env, holder, rate).unwrap()
    }

    /// The rate a holder's own call settles at.
    fn own_rate(&mut self) -> i128 {
        let config = self.yt.config().unwrap();
        match YtToken::committing_rate(&config, self.now) {
            RateSource::ObserveRate => self.tokenizer.observe_rate(self.now, self.live).unwrap(),
            RateSource::FreezeMaturityRate => self
                .tokenizer
                .freeze_maturity_rate(self.now, self.live)
                .unwrap(),
        }
    }

    fn transfer(&mut self, from: u64, to: u64, n: i128) -> Result<(), Error> {
        let rate = self.own_rate();
        self.yt.transfer(&self.env, from, to, n, rate)
    }

    fn preview(&self, holder: u64) -> i128 {
        let config = self.yt.config().unwrap();
        let frozen = self.tokenizer.maturity_rate().unwrap();
        let rate = YtToken::preview_rate(&config, self.now, self.live, frozen);
        self.yt.preview_claim_yield(&self.env, holder, rate).unwrap()
    }
}

#[test]
fn mint_bases_fresh_holder_at_the_current_rate() {
    let mut f = fixture(NOW);
    f.live = RATE_1_05;
    f.mint(ALICE, 100 * WAD);

    let expected_basis = ((100 * WAD) * WAD + RATE_1_05 - 1) / RATE_1_05;
    assert_eq!(f.yt.yield_basis(ALICE), Ok(expected_basis));
    assert_eq!(f.yt.checkpoint(&f.env, ALICE), Ok(RATE_1_05), "implied rate");
    assert_eq!(f.yt.accrued_yield(ALICE), Ok(0));

    assert_eq!(f.yt.total_yield_basis(), Ok(expected_basis));
    assert_eq!(f.yt.total_accrued_yield(), Ok(0));
}

#[test]
fn claim_banks_yield_using_the_telescoping_formula() {
    let mut f = fixture(NOW);
    f.live = RATE_1_05;
    f.mint(ALICE, 100 * WAD);

    f.live = RATE_1_10;
    let claimable = f.settle(ALICE, RATE_1_10);

    let expected = (100 * WAD) * (RATE_1_10 - RATE_1_05) / RATE_1_05 * WAD / RATE_1_10;
    assert!((claimable - expected).abs() <= 2, "claimable {}", claimable);
    assert!(
        (claimable - 4_329_004_329_004_329_000).abs() <= 1_000_000,
        "approx 4.329 SY, got {}",
        claimable
    );
    assert_eq!(f.yt.checkpoint(&f.env, ALICE), Ok(RATE_1_10));
    assert_eq!(f.yt.accrued_yield(ALICE), Ok(claimable));
    assert_eq!(f.yt.total_accrued_yield(), Ok(claimable));

    let expected_basis = ((100 * WAD) * WAD + RATE_1_05 - 1) / RATE_1_05;
    assert_eq!(
        f.yt.yield_basis(ALICE).unwrap() + claimable,
        expected_basis,
        "settle conserves shares"
    );
}

#[test]
fn settling_at_every_step_banks_the_same_as_one_settle_at_the_end() {
    const STEPS: i128 = 25;

    let stepwise = {
        let mut f = fixture(NOW);
        f.live = RATE_1_00;
        f.mint(ALICE, 100 * WAD);
        for i in 1..=STEPS {
            f.settle(ALICE, RATE_1_00 + i * (WAD / 100));
        }
        f.yt.accrued_yield(ALICE).unwrap()
    };

    let one_shot = {
        let mut f = fixture(NOW);
        f.live = RATE_1_00;
        f.mint(ALICE, 100 * WAD);
        f.settle(ALICE, RATE_1_00 + STEPS * (WAD / 100))
    };

    assert_eq!(
        stepwise, one_shot,
        "{} intermediate settles must bank exactly what one settle banks",
        STEPS
    );
}

#[test]
fn consume_removes_only_the_requested_amount() {
    let mut f = fixture(NOW);
    f.live = RATE_1_05;
    f.mint(ALICE, 100 * WAD);
    f.live = RATE_1_10;

    let banked = f.settle(ALICE, RATE_1_10);
    assert!(banked > 0);

    let part = banked / 2;
    f.yt.consume(ALICE, part).unwrap();
    assert_eq!(f.yt.accrued_yield(ALICE), Ok(banked - part));

    let still = f.settle(ALICE, RATE_1_10);
    assert_eq!(still, banked - part);
}

#[test]
fn consume_more_than_banked_is_rejected() {
    let mut f = fixture(NOW);
    f.live = RATE_1_05;
    f.mint(ALICE, 100 * WAD);
    f.live = RATE_1_10;
    let banked = f.settle(ALICE, RATE_1_10);
    let refused = f.yt.consume(ALICE, banked + 1).unwrap_err();
    assert_eq!(refused, Error::ConsumeExceedsBanked);
    assert_eq!(refused.code(), 11);
    assert_eq!(f.yt.accrued_yield(ALICE), Ok(banked));
}

#[test]
fn first_claim_at_mint_rate_accrues_nothing() {
    let mut f = fixture(NOW);
    f.mint(ALICE, 100 * WAD);
    let claimable = f.settle(ALICE, RATE_1_00);
    assert_eq!(claimable, 0);
    assert_eq!(f.yt.checkpoint(&f.env, ALICE), Ok(RATE_1_00));
}

#[test]
fn yield_is_conserved_across_a_transfer() {
    let mut f = fixture(NOW);
    f.mint(ALICE, 100 * WAD);

    f.live = RATE_1_10;
    f.transfer(ALICE, BOB, 50 * WAD).unwrap();

    let alice_pending = f.preview(ALICE);
    let bob_pending = f.preview(BOB);
    let expected_alice = (100 * WAD) * (RATE_1_10 - RATE_1_00) / RATE_1_00 * WAD / RATE_1_10;
    assert!((alice_pending - expected_alice).abs() <= 2);
    assert_eq!(bob_pending, 0, "Bob earns only from 1.10 forward");

    f.live = RATE_1_10 + WAD / 10;
    let r2 = RATE_1_10 + WAD / 10;
    let alice2 = f.preview(ALICE);
    let bob2 = f.preview(BOB);

    let single = (100 * WAD) * (r2 - RATE_1_00) / RATE_1_00 * WAD / r2;
    assert!(
        (alice2 + bob2 - single).abs() <= 4,
        "alice {} + bob {} vs single {}",
        alice2,
        bob2,
        single
    );
}

#[test]
fn transfer_into_a_fresh_address_during_a_dip_re_opens_nothing() {
    let mut f = fixture(NOW);
    f.mint(ALICE, 100 * WAD);

    f.live = RATE_1_10;
    let paid = f.settle(ALICE, RATE_1_10);
    assert!(paid > 0);
    f.yt.consume(ALICE, paid).unwrap();
    assert_eq!(f.yt.accrued_yield(ALICE), Ok(0));

    f.live = RATE_1_05;
    f.transfer(ALICE, FRESH, 100 * WAD).unwrap();

    f.live = RATE_1_10;
    assert_eq!(
        f.settle(FRESH, RATE_1_10),
        0,
        "the recipient must not re-claim an interval that was already paid"
    );
    assert_eq!(f.settle(ALICE, RATE_1_10), 0);
    assert_eq!(f.yt.total_accrued_yield(), Ok(0));
}

#[test]
fn re_used_address_earns_the_same_as_a_clean_one_on_yt_acquired_after_a_dip() {
    let mut f = fixture(NOW);

    f.mint(ALICE, 100 * WAD);
    f.live = RATE_1_10;
    let paid = f.settle(ALICE, RATE_1_10);
    f.yt.consume(ALICE, paid).unwrap();

    f.live = RATE_1_05;
    f.mint(ALICE, 100 * WAD);
    f.mint(BOB, 100 * WAD);

    f.live = RATE_1_10;
    let alice_owed = f.settle(ALICE, RATE_1_10);
    let bob_owed = f.settle(BOB, RATE_1_10);
    assert!(bob_owed > 0, "the clean address earns on the dip recovery");
    assert_eq!(
        alice_owed, bob_owed,
        "re-using an address must not forfeit yield on YT acquired later"
    );

    let expected = (100 * WAD) * (RATE_1_10 - RATE_1_05) / RATE_1_05 * WAD / RATE_1_10;
    assert!(
        (bob_owed - expected).abs() <= 2,
        "owed {} vs expected {}",
        bob_owed,
        expected
    );
}

#[test]
fn self_transfer_is_a_no_op() {
    let mut f = fixture(NOW);
    f.mint(ALICE, 100 * WAD);
    f.live = RATE_1_10;
    f.settle(ALICE, RATE_1_10);

    let balance = f.yt.balance(ALICE);
    let basis = f.yt.yield_basis(ALICE);
    let banked = f.yt.accrued_yield(ALICE);
    let supply = f.yt.total_supply();

    f.transfer(ALICE, ALICE, 40 * WAD).unwrap();

    assert_eq!(f.yt.balance(ALICE), balance);
    assert_eq!(f.yt.yield_basis(ALICE), basis);
    assert_eq!(f.yt.accrued_yield(ALICE), banked);
    assert_eq!(f.yt.total_supply(), supply);
    assert_eq!(f.yt.total_yield_basis(), basis);
    assert_eq!(f.yt.total_accrued_yield(), banked);
}

#[test]
fn fanning_a_position_out_and_back_conserves_the_entitlement() {
    let mut f = fixture(NOW);
    f.mint(ALICE, 100 * WAD);

    let hops: Vec<u64> = (100..105).collect();

    f.live = RATE_1_05;
    for hop in &hops {
        f.transfer(ALICE, *hop, 20 * WAD).unwrap();
    }
    assert_eq!(f.yt.balance(ALICE), 0);

    f.live = RATE_1_10;
    let mut total = f.settle(ALICE, RATE_1_10);
    for hop in &hops {
        total += f.settle(*hop, RATE_1_10);
    }

    let single = (100 * WAD) * (RATE_1_10 - RATE_1_00) / RATE_1_00 * WAD / RATE_1_10;
    assert!(
        total <= single,
        "fanning out must never manufacture yield: {} vs {}",
        total,
        single
    );
    assert!(
        single - total <= 16,
        "fanning out must not lose more than rounding dust: {} vs {}",
        total,
        single
    );
    assert_eq!(f.yt.total_accrued_yield(), Ok(total));
}

#[test]
fn lib_mint_increases_balance_and_supply() {
    let mut f = fixture(NOW);
    f.mint(ALICE, 1_000);
    assert_eq!(f.yt.balance(ALICE), 1_000);
    assert_eq!(f.yt.total_supply(), 1_000);
    assert_eq!(f.yt.symbol(), "sYT");
    assert_eq!(f.yt.decimals(), 7);
}

#[test]
fn lib_transfer_moves_balance() {
    let mut f = fixture(NOW);
    f.mint(ALICE, 1_000);
    f.transfer(ALICE, BOB, 400).unwrap();
    assert_eq!(f.yt.balance(ALICE), 600);
    assert_eq!(f.yt.balance(BOB), 400);
}

#[test]
fn lib_transfer_rejects_insufficient_balance() {
    let mut f = fixture(NOW);
    f.mint(ALICE, 100);
    let refused = f.transfer(ALICE, BOB, 101).unwrap_err();
    assert_eq!(refused, Error::InsufficientBalance);
    assert_eq!(refused.code(), 7);
    assert_eq!(f.yt.balance(ALICE), 100);
}

#[test]
fn lib_approve_and_transfer_from_spend_allowance() {
    let mut f = fixture(NOW);
    f.mint(ALICE, 1_000);
    f.yt.approve(LEDGER, ALICE, BOB, 500, 1_000).unwrap();
    let rate = f.own_rate();
    f.yt
        .transfer_from(&f.env, LEDGER, BOB, ALICE, BOB, 300, rate)
        .unwrap();
    assert_eq!(f.yt.balance(ALICE), 700);
    assert_eq!(f.yt.balance(BOB), 300);
    assert_eq!(f.yt.allowance(LEDGER, ALICE, BOB), 200);
    assert_eq!(
        f.yt.transfer_from(&f.env, LEDGER, BOB, ALICE, BOB, 201, rate),
        Err(Error::InsufficientAllowance)
    );
}

#[test]
fn lib_burn_reduces_balance_and_supply() {
    let mut f = fixture(NOW);
    f.mint(ALICE, 1_000);
    let rate = f.own_rate();
    f.yt.burn(&f.env, ALICE, 400, rate).unwrap();
    assert_eq!(f.yt.balance(ALICE), 600);
    assert_eq!(f.yt.total_supply(), 600);
}

#[test]
fn yt_setup_and_allowances_are_checked() {
    let mut yt = YtToken::new();
    assert_eq!(yt.config(), Err(Error::NotInitialized));
    assert_eq!(
        yt.initialize(MATURITY, ADMIN, TOKENIZER, SY, MATURITY),
        Err(Error::InvalidMaturity)
    );
    yt.initialize(NOW, ADMIN, TOKENIZER, SY, MATURITY).unwrap();
    assert_eq!(
        yt.config(),
        Ok(Config {
            admin: ADMIN,
            tokenizer: TOKENIZER,
            sy_token: SY,
            maturity: MATURITY
        })
    );
    assert_eq!(yt.maturity(), Ok(MATURITY));
    assert_eq!(
        yt.initialize(NOW, ADMIN, TOKENIZER, SY, MATURITY),
        Err(Error::AlreadyInitialized)
    );
    assert_eq!(yt.name(), "Sidereal Yield Token");
    assert_eq!(
        yt.approve(9, ALICE, BOB, -1, 10),
        Err(Error::InvalidAmount)
    );
    assert_eq!(
        yt.approve(9, ALICE, BOB, 1, 8),
        Err(Error::InvalidExpiration)
    );
}

#[test]
fn yt_rates_and_amounts_are_checked() {
    let mut f = fixture(NOW);
    assert_eq!(
        f.yt.mint(&f.env, ALICE, 10, 0),
        Err(Error::InvalidExchangeRate)
    );
    assert_eq!(f.yt.mint(&f.env, ALICE, 0, WAD), Err(Error::InvalidAmount));
    assert_eq!(
        f.yt.mint(&f.env, ALICE, i128::MAX, 1),
        Err(Error::MathOverflow)
    );
    assert_eq!(shares_for_face(&f.env, 10, 0), Err(Error::InvalidExchangeRate));
    assert_eq!(shares_for_face(&f.env, -10, WAD), Ok(0));
    assert_eq!(shares_for_face(&f.env, 10, 3 * WAD), Ok(4));
    assert_eq!(shares_for_face(&f.env, i128::MAX, WAD), Ok(i128::MAX));
    assert_eq!(shares_for_face(&f.env, i128::MAX, 1), Err(Error::MathOverflow));
    assert_eq!(
        f.yt.transfer(&f.env, ALICE, BOB, 0, WAD),
        Err(Error::InvalidAmount)
    );
    assert_eq!(f.yt.balance(ALICE), 0);
}

#[test]
fn burn_from_spends_the_allowance_and_retires_the_basis() {
    let mut f = fixture(NOW);
    f.mint(ALICE, 1_000);
    f.yt.approve(LEDGER, ALICE, BOB, 500, 10).unwrap();
    f.yt
        .burn_from(&f.env, LEDGER, BOB, ALICE, 250, WAD)
        .unwrap();
    assert_eq!(f.yt.balance(ALICE), 750);
    assert_eq!(f.yt.yield_basis(ALICE), Ok(750));
    assert_eq!(f.yt.total_yield_basis(), Ok(750));
    assert_eq!(f.yt.allowance(LEDGER, ALICE, BOB), 250);
    f.yt.burn_settled(&f.env, ALICE, 250, WAD).unwrap();
    assert_eq!(f.yt.yield_basis(ALICE), Ok(500));
}

#[test]
fn a_settle_again_at_the_same_rate_banks_nothing() {
    let mut f = fixture(NOW);
    f.mint(ALICE, 333);
    let once = f.settle(ALICE, RATE_1_10);
    let basis = f.yt.yield_basis(ALICE);
    assert_eq!(f.settle(ALICE, RATE_1_10), once);
    assert_eq!(f.yt.yield_basis(ALICE), basis);
    assert_eq!(f.settle(ALICE, RATE_1_05), once, "a dip pays nothing");
    assert_eq!(f.yt.yield_basis(ALICE), basis);
}

#[test]
fn a_preview_is_what_a_settle_banks() {
    let mut f = fixture(NOW);
    f.mint(ALICE, 12_345_677);
    for rate in [RATE_1_05, RATE_1_00, RATE_1_10, RATE_1_10 + 7] {
        f.live = rate;
        let preview = f.preview(ALICE);
        assert_eq!(f.settle(ALICE, rate), preview);
    }
}

#[test]
fn parting_a_position_gains_at_most_one_share() {
    for n in 1..25 {
        let mut f = fixture(NOW);
        f.live = 970_000_000_000_000_000;
        f.mint(ALICE, 25);
        let whole = {
            let mut g = fixture(NOW);
            g.live = f.live;
            g.mint(ALICE, 25);
            g.settle(ALICE, RATE_1_10 * 2)
        };
        f.transfer(ALICE, BOB, n).unwrap();
        let parts = f.settle(ALICE, RATE_1_10 * 2) + f.settle(BOB, RATE_1_10 * 2);
        assert!(parts <= whole + 1);
    }
}

#[test]
fn previews_and_commits_take_their_rate_from_maturity_on_from_the_freeze() {
    let f = fixture(NOW);
    let config = f.yt.config().unwrap();
    assert_eq!(YtToken::preview_rate(&config, NOW, 7, 9), 7);
    assert_eq!(YtToken::preview_rate(&config, MATURITY, 7, 9), 9);
    assert_eq!(YtToken::preview_rate(&config, MATURITY, 7, 0), 7);
    assert_eq!(
        YtToken::committing_rate(&config, MATURITY - 1),
        RateSource::ObserveRate
    );
    assert_eq!(
        YtToken::committing_rate(&config, MATURITY),
        RateSource::FreezeMaturityRate
    );
}

#[test]
fn yt_error_codes_are_stable() {
    let all = [
        Error::AlreadyInitialized,
        Error::NotInitialized,
        Error::InvalidMaturity,
        Error::InvalidAmount,
        Error::InvalidExchangeRate,
        Error::ExchangeRateRegression,
        Error::InsufficientBalance,
        Error::InsufficientAllowance,
        Error::MathOverflow,
        Error::InvalidExpiration,
        Error::ConsumeExceedsBanked,
    ];
    for (i, error) in all.iter().enumerate() {
        assert_eq!(error.code(), i as u32 + 1);
    }
}
