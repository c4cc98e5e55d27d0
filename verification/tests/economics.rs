use sidereal::blend_adapter::Holding;
use sidereal::pt_token::PtToken;
use sidereal::sy_wrapper::SyWrapper;
use sidereal::tokenizer::{Error, Tokenizer};
use sidereal::yt_token::{RateSource, YtToken};
use soroban_sdk::testutils::EnvTestConfig;
use soroban_sdk::Env;
use std::collections::BTreeMap;

const WAD: i128 = 1_000_000_000_000_000_000;
/// One whole token at the 7-decimal underlying precision.
const UNIT: i128 = 10_000_000;
const MATURITY: u64 = 1_000_000;
const RATE_1_05: i128 = 1_050_000_000_000_000_000;
const RATE_1_10: i128 = 1_100_000_000_000_000_000;
const RATE_1_15: i128 = 1_150_000_000_000_000_000;
const RATE_1_20: i128 = 1_200_000_000_000_000_000;
const STEPS: u64 = 10_000;
const FEE_500_BPS: i128 = 500;

const ADMIN: u64 = 1;
const UNDERLYING: u64 = 2;
const SY: u64 = 3;
const PT: u64 = 4;
const YT: u64 = 5;
const TOKENIZER: u64 = 6;
const FEE_RECIPIENT: u64 = 7;
const FIRST_ACCOUNT: u64 = 100;
const UNPOOLED: Holding = Holding {
    b_tokens: 0,
    b_rate: 0,
};

/// A whole market: the SY, its tokenizer with the escrow it holds in SY, the
/// principal and yield tokens, and what every account holds of the underlying.
struct Market {
    env: Env,
    now: u64,
    sy: SyWrapper,
    pt: PtToken,
    yt: YtToken,
    tokenizer: Tokenizer,
    underlying: BTreeMap<u64, i128>,
    next: u64,
}

fn deploy() -> Market {
    deploy_with_fee(0)
}

fn deploy_with_fee(yield_fee_bps: i128) -> Market {
    let env = Env::new_with_config(EnvTestConfig {
        capture_snapshot_at_drop: false,
    });
    env.cost_estimate().budget().reset_unlimited();
    let mut sy = SyWrapper::new();
    sy.initialize(ADMIN, UNDERLYING).unwrap();
    let mut pt = PtToken::new();
    pt.initialize(0, ADMIN, TOKENIZER, SY, MATURITY).unwrap();
    let mut yt = YtToken::new();
    yt.initialize(0, ADMIN, TOKENIZER, SY, MATURITY).unwrap();
    let mut tokenizer = Tokenizer::new();
    tokenizer
        .initialize(
            0,
            TOKENIZER,
            ADMIN,
            SY,
            PT,
            YT,
            MATURITY,
            FEE_RECIPIENT,
            yield_fee_bps,
        )
        .unwrap();
    Market {
        env,
        now: 0,
        sy,
        pt,
        yt,
        tokenizer,
        underlying: BTreeMap::new(),
        next: FIRST_ACCOUNT,
    }
}

impl Market {
    fn set_time(&mut self, now: u64) {
        self.now = now;
    }

    /// An account that holds no underlying.
    fn account(&mut self) -> u64 {
        self.next += 1;
        self.next
    }

    fn fund(&mut self, n: i128) -> u64 {
        let who = self.account();
        self.underlying.insert(who, n);
        who
    }

    fn underlying_balance(&self, who: u64) -> i128 {
        self.underlying.get(&who).copied().unwrap_or(0)
    }

    fn deposit(&mut self, who: u64, n: i128) -> i128 {
        assert!(self.underlying_balance(who) >= n);
        self.sy.begin_deposit(n, &UNPOOLED).unwrap();
        let minted = self.sy.deposit(who, n, &UNPOOLED, &UNPOOLED).unwrap();
        *self.underlying.entry(who).or_insert(0) -= n;
        *self.underlying.entry(SY).or_insert(0) += n;
        minted
    }

    fn try_split(&mut self, who: u64, n: i128) -> Result<(i128, i128), Error> {
        let rate = self.rate();
        let (pt, yt) = self.tokenizer.split(&self.env, self.now, rate, n)?;
        self.sy.transfer(who, TOKENIZER, n).unwrap();
        self.pt.mint(who, pt).unwrap();
        self.yt.mint(&self.env, who, yt, rate).unwrap();
        Ok((pt, yt))
    }

    fn split(&mut self, who: u64, n: i128) {
        self.try_split(who, n).unwrap();
    }

    /// The rate a holder's own call on the yield token settles at.
    fn own_rate(&mut self) -> i128 {
        let live = self.rate();
        let config = self.yt.config().unwrap();
        match YtToken::committing_rate(&config, self.now) {
            RateSource::ObserveRate => self.tokenizer.observe_rate(self.now, live).unwrap(),
            RateSource::FreezeMaturityRate => {
                self.tokenizer.freeze_maturity_rate(self.now, live).unwrap()
            }
        }
    }

    fn transfer_yt(&mut self, from: u64, to: u64, n: i128) {
        let rate = self.own_rate();
        self.yt.transfer(&self.env, from, to, n, rate).unwrap();
    }

    fn burn_yt(&mut self, from: u64, n: i128) {
        let rate = self.own_rate();
        self.yt.burn(&self.env, from, n, rate).unwrap();
    }

    fn preview_recombine(&self, n: i128) -> i128 {
        self.tokenizer
            .preview_recombine(
                &self.env,
                self.now,
                self.rate(),
                self.escrow_shares(),
                self.pt_supply(),
                n,
                n,
            )
            .unwrap()
    }

    fn recombine(&mut self, who: u64, n: i128) -> i128 {
        let rate = self.rate();
        let escrow = self.escrow_shares();
        let supply = self.pt_supply();
        let paid = self
            .tokenizer
            .recombine(&self.env, self.now, rate, escrow, supply, n, n)
            .unwrap();
        self.pt.burn(who, n).unwrap();
        self.yt.burn_settled(&self.env, who, n, rate).unwrap();
        self.sy.transfer(TOKENIZER, who, paid).unwrap();
        paid
    }

    fn redeem_pt(&mut self, who: u64, n: i128) -> i128 {
        let rate = self.rate();
        let escrow = self.escrow_shares();
        let supply = self.pt_supply();
        let paid = self
            .tokenizer
            .redeem_at_maturity(&self.env, self.now, rate, escrow, supply, n)
            .unwrap();
        self.pt.burn(who, n).unwrap();
        self.sy.transfer(TOKENIZER, who, paid).unwrap();
        paid
    }

    fn maturity_rate(&self) -> i128 {
        self.tokenizer.maturity_rate().unwrap()
    }

    fn claim(&mut self, holder: u64) -> i128 {
        let live = self.rate();
        let rate = self.tokenizer.claim_rate(self.now, live).unwrap();
        let owed = self.yt.settle(&self.env, holder, rate).unwrap();
        let escrow = self.escrow_shares();
        let supply = self.pt_supply();
        let payment = self
            .tokenizer
            .claim_yield(&self.env, rate, owed, escrow, supply)
            .unwrap();
        if payment.pay > 0 {
            self.yt.consume(holder, payment.pay).unwrap();
            if payment.net > 0 {
                self.sy.transfer(TOKENIZER, holder, payment.net).unwrap();
            }
            if payment.fee > 0 {
                self.sy
                    .transfer(TOKENIZER, FEE_RECIPIENT, payment.fee)
                    .unwrap();
            }
        }
        payment.net
    }

    fn set_rate(&mut self, rate: i128) {
        self.sy.set_exchange_rate(ADMIN, rate).unwrap();
    }

    /// Records the SY rate as the last one seen before maturity.
    fn observe(&mut self) -> i128 {
        let live = self.rate();
        self.tokenizer.observe_rate(self.now, live).unwrap()
    }

    fn rate(&self) -> i128 {
        self.sy.exchange_rate(&UNPOOLED).unwrap()
    }

    fn sy_balance(&self, who: u64) -> i128 {
        self.sy.balance(who)
    }

    fn escrow_shares(&self) -> i128 {
        self.sy.balance(TOKENIZER)
    }

    fn pt_balance(&self, who: u64) -> i128 {
        self.pt.balance(who)
    }

    fn pt_supply(&self) -> i128 {
        self.pt.total_supply()
    }

    fn yt_balance(&self, who: u64) -> i128 {
        self.yt.balance(who)
    }

    fn yt_basis(&self, who: u64) -> i128 {
        self.yt.yield_basis(who).unwrap()
    }

    /// What a claim of the holder would find banked, in SY.
    fn owed(&self, holder: u64) -> i128 {
        let config = self.yt.config().unwrap();
        let rate = YtToken::preview_rate(&config, self.now, self.rate(), self.maturity_rate());
        self.yt.preview_claim_yield(&self.env, holder, rate).unwrap()
    }

    fn yt_outstanding(&self, holders: &[u64]) -> i128 {
        holders.iter().map(|&holder| self.owed(holder)).sum()
    }

    fn yt_ledger_total(&self) -> i128 {
        self.yt.total_yield_basis().unwrap() + self.yt.total_accrued_yield().unwrap()
    }

    /// Whatever the rate, the escrow covers the SY behind every yield position
    /// and every share already banked.
    fn assert_escrow_covers_yt_ledger(&self) {
        let escrow = self.escrow_shares();
        let ledger = self.yt_ledger_total();
        assert!(
            escrow >= ledger,
            "escrow {escrow} shares must cover the YT ledger (basis + banked) {ledger}"
        );
    }

    /// At the current rate, the escrow covers every PT at face and every
    /// holder's unclaimed yield.
    fn assert_escrow_covers(&self, holders: &[u64]) {
        let rate = self.rate();
        let escrow_asset = self.escrow_shares() * rate / WAD;
        let yt_asset = self.yt_outstanding(holders) * rate / WAD;
        let covered = self.pt_supply() + yt_asset;
        assert!(
            escrow_asset >= covered,
            "escrow {escrow_asset} asset units must cover PT+YT claims {covered}"
        );
    }
}

fn claim_at(bal: i128, c: i128, r: i128) -> i128 {
    (bal * (r - c) / c) * WAD / r
}

fn redeem_and_claim(redeem_first: bool) -> (i128, i128, i128, i128) {
    let mut m = deploy();
    let alice = m.fund(100 * UNIT);
    m.deposit(alice, 100 * UNIT);
    m.split(alice, 100 * UNIT);

    m.set_rate(RATE_1_10);
    m.observe();
    m.set_time(MATURITY + 1);

    m.set_rate(RATE_1_15);

    let pt = m.pt_balance(alice);
    let redeem_sy;
    let claim_sy;
    if redeem_first {
        redeem_sy = m.redeem_pt(alice, pt);
        m.set_rate(RATE_1_20);
        claim_sy = m.claim(alice);
    } else {
        claim_sy = m.claim(alice);
        m.set_rate(RATE_1_20);
        redeem_sy = m.redeem_pt(alice, pt);
    }
    (redeem_sy, claim_sy, m.escrow_shares(), m.maturity_rate())
}

#[test]
fn yt_receives_yield_on_claim() {
    let mut m = deploy();
    let alice = m.fund(100 * UNIT);
    m.deposit(alice, 100 * UNIT);
    m.split(alice, 100 * UNIT);
    assert_eq!(m.sy_balance(alice), 0, "split escrows all of Alice's SY");

    m.set_rate(RATE_1_10);

    let reported = m.claim(alice);

    let expected_sy = (10 * UNIT) * WAD / RATE_1_10;
    let got = m.sy_balance(alice);
    assert!(
        (got - expected_sy).abs() <= 2,
        "YT holder should receive ~{} SY of yield, got {}",
        expected_sy,
        got
    );
    assert!(reported > 0, "claim should report the accrued amount");
}

#[test]
fn pt_redeems_to_principal_not_share() {
    let mut m = deploy();
    let alice = m.fund(100 * UNIT);
    m.deposit(alice, 100 * UNIT);
    m.split(alice, 100 * UNIT);
    let pt = m.pt_balance(alice);

    m.set_rate(RATE_1_10);
    m.observe();
    m.set_time(MATURITY + 1);

    let sy_out = m.redeem_pt(alice, pt);

    let expected = pt * WAD / RATE_1_10;
    assert!(
        (sy_out - expected).abs() <= 2,
        "PT should redeem to {} SY (principal at the maturity rate), got {}",
        expected,
        sy_out
    );
    assert!(
        sy_out < pt,
        "PT must not redeem 1:1 in shares when the rate has grown above 1.0"
    );
}

#[test]
fn escrow_covers_outstanding_claims() {
    let mut m = deploy();
    let alice = m.fund(50 * UNIT);
    let bob = m.fund(50 * UNIT);
    m.deposit(alice, 50 * UNIT);
    m.deposit(bob, 50 * UNIT);
    m.split(alice, 50 * UNIT);
    m.split(bob, 50 * UNIT);

    let holders = [alice, bob];
    m.assert_escrow_covers(&holders);

    m.set_rate(RATE_1_10);
    m.assert_escrow_covers(&holders);

    m.claim(alice);
    assert!(
        m.sy_balance(alice) > 0,
        "Alice must receive her YT yield in SY"
    );
    m.assert_escrow_covers(&holders);

    m.claim(bob);
    assert!(m.sy_balance(bob) > 0, "Bob must receive his YT yield in SY");
    m.assert_escrow_covers(&holders);

    m.set_time(MATURITY + 1);
    m.redeem_pt(alice, m.pt_balance(alice));
    m.assert_escrow_covers(&holders);
    m.redeem_pt(bob, m.pt_balance(bob));

    assert!(
        m.escrow_shares() <= 4,
        "escrow should drain to ~0, {} shares left",
        m.escrow_shares()
    );
}

#[test]
fn redemption_uses_frozen_maturity_rate() {
    let mut m = deploy();
    let alice = m.fund(100 * UNIT);
    m.deposit(alice, 100 * UNIT);
    m.split(alice, 100 * UNIT);

    m.set_rate(RATE_1_10);
    m.observe();
    m.set_time(MATURITY + 1);

    let half = 50 * UNIT;
    let expected = half * WAD / RATE_1_10;
    let sy1 = m.redeem_pt(alice, half);
    assert!((sy1 - expected).abs() <= 4, "first redeem at the maturity rate");
    assert_eq!(m.maturity_rate(), RATE_1_10, "rate frozen at maturity");

    m.set_rate(RATE_1_20);
    let sy2 = m.redeem_pt(alice, half);
    assert!(
        (sy2 - expected).abs() <= 4,
        "post-maturity rate bump ignored: {} vs {}",
        sy2,
        expected
    );
}

#[test]
fn freeze_ignores_post_maturity_accrual_even_on_late_first_touch() {
    let mut m = deploy();
    let alice = m.fund(100 * UNIT);
    m.deposit(alice, 100 * UNIT);
    m.split(alice, 100 * UNIT);

    m.set_rate(RATE_1_05);
    assert_eq!(m.observe(), RATE_1_05);

    m.set_time(MATURITY + 100_000);
    m.set_rate(RATE_1_10);

    let pt = m.pt_balance(alice);
    let sy_out = m.redeem_pt(alice, pt);
    assert_eq!(m.maturity_rate(), RATE_1_05, "frozen at the observation");
    let expected = pt * WAD / RATE_1_05;
    assert!(
        (sy_out - expected).abs() <= 4,
        "redeemed at the observed 1.05, not the drifted 1.10: {} vs {}",
        sy_out,
        expected
    );
}

#[test]
fn direct_yt_transfer_is_observed_by_the_maturity_freeze() {
    let mut m = deploy();
    let alice = m.fund(100 * UNIT);
    let bob = m.account();
    m.deposit(alice, 100 * UNIT);
    m.split(alice, 100 * UNIT);

    m.set_rate(RATE_1_10);
    m.transfer_yt(alice, bob, UNIT);
    let banked = m.owed(alice);
    assert!(banked > 0, "the transfer banked Alice's accrued yield at 1.10");

    m.set_time(MATURITY + 1);

    let pt = m.pt_balance(alice);
    let sy_out = m.redeem_pt(alice, pt);
    assert_eq!(
        m.maturity_rate(),
        RATE_1_10,
        "the direct transfer's rate must be the frozen observation"
    );
    let expected = pt * WAD / RATE_1_10;
    assert!(
        (sy_out - expected).abs() <= 4,
        "PT redeems at the transfer-observed 1.10: {} vs {}",
        sy_out,
        expected
    );

    let claimed = m.claim(alice);
    assert!(
        (banked - claimed).abs() <= 2,
        "banked yield is payable because the freeze saw the same rate it was banked at: banked {} vs claimed {}",
        banked,
        claimed
    );
}

#[test]
fn direct_yt_burn_is_observed_by_the_maturity_freeze() {
    let mut m = deploy();
    let alice = m.fund(100 * UNIT);
    m.deposit(alice, 100 * UNIT);
    m.split(alice, 100 * UNIT);

    let rate_1_08: i128 = 1_080_000_000_000_000_000;
    m.set_rate(rate_1_08);
    m.burn_yt(alice, UNIT);

    m.set_time(MATURITY + 1);
    let pt = m.pt_balance(alice);
    m.redeem_pt(alice, pt);
    assert_eq!(
        m.maturity_rate(),
        rate_1_08,
        "the direct burn's settle rate must be the frozen observation"
    );
}

#[test]
fn unobserved_pre_maturity_tail_freezes_at_the_last_observation() {
    let mut m = deploy();
    let alice = m.fund(100 * UNIT);
    m.deposit(alice, 100 * UNIT);
    m.split(alice, 100 * UNIT);

    let rate_1_08: i128 = 1_080_000_000_000_000_000;
    m.set_rate(rate_1_08);
    m.set_time(MATURITY + 1);

    let pt = m.pt_balance(alice);
    let sy_out = m.redeem_pt(alice, pt);
    assert_eq!(
        m.maturity_rate(),
        WAD,
        "freeze falls back to the split-time observation, never a live post-maturity read"
    );
    assert!(sy_out > 0);
}

#[test]
fn pt_redeem_and_yt_claim_use_one_frozen_rate_regardless_of_order() {
    let a = redeem_and_claim(true);
    let b = redeem_and_claim(false);

    assert_eq!(a.3, RATE_1_10, "PT-first must freeze the observed rate");
    assert_eq!(b.3, RATE_1_10, "YT-first must freeze the observed rate");

    assert_eq!(a.0, b.0, "PT redemption SY must not depend on order");
    assert_eq!(a.1, b.1, "YT claim SY must not depend on order");
    assert_eq!(a.0 + a.1, b.0 + b.1, "total SY paid out must not depend on order");
    assert_eq!(a.2, b.2, "escrow left must not depend on order");

    let expected_redeem = 100 * UNIT * WAD / RATE_1_10;
    let expected_claim = claim_at(100 * UNIT, WAD, RATE_1_10);
    assert!(
        (a.0 - expected_redeem).abs() <= 4,
        "PT must redeem at the observed 1.10: {} vs {}",
        a.0,
        expected_redeem
    );
    assert!(
        (a.1 - expected_claim).abs() <= 4,
        "YT must claim at the observed 1.10: {} vs {}",
        a.1,
        expected_claim
    );
    assert!(
        (100 * UNIT * WAD / RATE_1_15 - expected_redeem).abs() > 4
            && (100 * UNIT * WAD / RATE_1_20 - expected_redeem).abs() > 4,
        "the drifted rates must differ from 1.10, else this test proves nothing"
    );
}

#[test]
fn redeem_allowed_at_exact_maturity() {
    let mut m = deploy();
    let alice = m.fund(100 * UNIT);
    m.deposit(alice, 100 * UNIT);
    m.split(alice, 100 * UNIT);

    m.set_time(MATURITY);
    let pt = m.pt_balance(alice);
    let out = m.redeem_pt(alice, pt);
    assert!(out > 0, "redemption works at exactly the maturity timestamp");
}

#[test]
fn split_rejects_at_exact_maturity() {
    let mut m = deploy();
    let alice = m.fund(100 * UNIT);
    m.deposit(alice, 100 * UNIT);

    m.set_time(MATURITY);
    let refused = m.try_split(alice, 100 * UNIT).unwrap_err();
    assert_eq!(refused.code(), 6);
}

#[test]
fn redemption_is_capped_when_rate_regresses() {
    let mut m = deploy();
    let alice = m.fund(100 * UNIT);
    let bob = m.fund(100 * UNIT);
    m.deposit(alice, 100 * UNIT);
    m.deposit(bob, 100 * UNIT);
    m.split(alice, 100 * UNIT);
    m.split(bob, 100 * UNIT);

    let rate_0_95: i128 = 950_000_000_000_000_000;
    m.set_rate(rate_0_95);
    m.observe();
    m.set_time(MATURITY + 1);

    let alice_pt = m.pt_balance(alice);
    let full_uncapped = alice_pt * WAD / rate_0_95;
    let sy_alice = m.redeem_pt(alice, alice_pt);
    assert!(
        sy_alice < full_uncapped,
        "redemption must be capped below full principal under insolvency: {} vs {}",
        sy_alice,
        full_uncapped
    );

    let bob_pt = m.pt_balance(bob);
    let sy_bob = m.redeem_pt(bob, bob_pt);

    assert!(
        (sy_alice - sy_bob).abs() <= 4,
        "loss shared equally: {} vs {}",
        sy_alice,
        sy_bob
    );
    assert!(
        m.escrow_shares() <= 4,
        "escrow drains, {} shares left",
        m.escrow_shares()
    );
}

#[test]
fn split_and_recombine_survive_a_rate_regression() {
    let mut m = deploy();
    let alice = m.fund(100 * UNIT);
    m.deposit(alice, 100 * UNIT);
    m.split(alice, 100 * UNIT);

    let rate_0_90: i128 = 900_000_000_000_000_000;
    m.set_rate(rate_0_90);

    let bob = m.fund(50 * UNIT);
    m.deposit(bob, 50 * UNIT);
    let bob_sy = m.sy_balance(bob);
    m.split(bob, bob_sy);
    assert!(
        m.pt_balance(bob) > 0,
        "a new depositor must be able to mint PT while the market is underwater"
    );

    let alice_pt = m.pt_balance(alice);
    let uncapped = alice_pt * WAD / rate_0_90;
    let quoted = m.preview_recombine(alice_pt);
    let got = m.recombine(alice, alice_pt);
    assert!(
        got > 0 && got < uncapped,
        "recombine must haircut under a shortfall: got {} vs uncapped {}",
        got,
        uncapped
    );
    assert_eq!(
        quoted, got,
        "preview_recombine must quote the capped payout the recombine actually pays"
    );
}

#[test]
fn claim_yield_survives_a_sub_stroop_rate_regression() {
    let mut m = deploy();
    let alice = m.fund(100 * UNIT);
    m.deposit(alice, 100 * UNIT);
    m.split(alice, 100 * UNIT);

    m.set_rate(WAD - 1);

    let previewed = m.owed(alice);
    assert_eq!(previewed, 0, "preview must report zero, not trap");

    let claimed = m.claim(alice);
    assert_eq!(claimed, 0, "no yield accrued, so the claim pays zero");
    assert_eq!(m.sy_balance(alice), 0);
    assert_eq!(
        m.pt_supply(),
        100 * UNIT,
        "the claim must not touch principal"
    );
}

fn pt_face_reservation(pt_supply: i128, rate: i128) -> i128 {
    (pt_supply * WAD + rate - 1) / rate
}

#[test]
fn yt_claim_is_subordinated_when_pt_is_under_covered() {
    let mut m = deploy();
    let alice = m.fund(100 * UNIT);
    let bob = m.account();
    m.deposit(alice, 100 * UNIT);
    m.split(alice, 100 * UNIT);

    m.set_rate(RATE_1_10);
    m.transfer_yt(alice, bob, UNIT);
    let owed_before = m.owed(alice);
    assert!(owed_before > 0, "Alice has banked yield to claim");

    let rate_0_90: i128 = 900_000_000_000_000_000;
    m.set_rate(rate_0_90);

    assert!(
        pt_face_reservation(m.pt_supply(), rate_0_90) > m.escrow_shares(),
        "precondition: PT is under-covered, so there is no YT surplus"
    );

    let claimed = m.claim(alice);
    assert_eq!(claimed, 0, "YT is subordinate to PT: no surplus, no payout");
    assert_eq!(m.sy_balance(alice), 0, "nothing is paid out");
    assert_eq!(
        m.owed(alice),
        owed_before,
        "the unpaid yield stays banked, not forfeited"
    );
}

#[test]
fn yt_claim_takes_only_the_surplus_over_pt_reservation() {
    let mut m = deploy();
    let alice = m.fund(100 * UNIT);
    let bob = m.account();
    m.deposit(alice, 100 * UNIT);
    m.split(alice, 100 * UNIT);

    m.set_rate(RATE_1_10);
    m.transfer_yt(alice, bob, UNIT);
    let owed_before = m.owed(alice);

    m.set_rate(RATE_1_05);

    let escrow_before = m.escrow_shares();
    let reservation = pt_face_reservation(m.pt_supply(), RATE_1_05);
    let surplus = escrow_before - reservation;
    assert!(
        surplus > 0 && surplus < owed_before,
        "precondition: partial surplus, less than owed ({} of {})",
        surplus,
        owed_before
    );

    let claimed = m.claim(alice);
    assert_eq!(
        claimed, surplus,
        "the claim pays exactly the surplus over the PT reservation"
    );
    assert_eq!(
        m.escrow_shares(),
        reservation,
        "escrow is drained down to the PT reservation, so PT stays fully covered"
    );
    assert_eq!(
        m.owed(alice),
        owed_before - claimed,
        "the unpaid remainder stays banked"
    );
}

#[test]
fn banked_yield_becomes_claimable_after_the_rate_recovers() {
    let mut m = deploy();
    let alice = m.fund(100 * UNIT);
    let bob = m.account();
    m.deposit(alice, 100 * UNIT);
    m.split(alice, 100 * UNIT);

    m.set_rate(RATE_1_10);
    m.transfer_yt(alice, bob, UNIT);
    let owed = m.owed(alice);
    assert!(owed > 0);

    m.set_rate(900_000_000_000_000_000);
    assert_eq!(m.claim(alice), 0, "no surplus during the dip");
    assert_eq!(
        m.owed(alice),
        owed,
        "the full entitlement is still banked"
    );

    m.set_rate(RATE_1_10);
    let claimed = m.claim(alice);
    assert_eq!(
        claimed, owed,
        "the recovered payout equals the originally banked entitlement, no phantom yield"
    );
    assert_eq!(m.sy_balance(alice), claimed);
    assert_eq!(
        m.owed(alice),
        0,
        "nothing left banked after the full payout"
    );
}

#[test]
fn transfer_conserves_yield_through_claims() {
    let mut m = deploy();
    let alice = m.fund(100 * UNIT);
    let bob = m.account();
    m.deposit(alice, 100 * UNIT);
    m.split(alice, 100 * UNIT);

    m.set_rate(RATE_1_10);
    m.transfer_yt(alice, bob, 50 * UNIT);

    m.set_rate(RATE_1_20);

    let claimed_alice = m.claim(alice);
    let claimed_bob = m.claim(bob);
    assert!(claimed_alice > 0 && claimed_bob > 0, "both earned yield");
    assert_eq!(m.sy_balance(alice), claimed_alice);
    assert_eq!(m.sy_balance(bob), claimed_bob);

    let asset_yield = (100 * UNIT) * (RATE_1_20 - WAD) / WAD;
    let single_holder = asset_yield * WAD / RATE_1_20;
    assert!(
        (claimed_alice + claimed_bob - single_holder).abs() <= 4,
        "claimed {} + {} should equal single-holder {}",
        claimed_alice,
        claimed_bob,
        single_holder
    );

    let escrow_asset = m.escrow_shares() * m.rate() / WAD;
    assert!(
        (escrow_asset - 100 * UNIT).abs() <= 4,
        "escrow should hold only principal, {} asset units",
        escrow_asset
    );
}

#[test]
fn transfer_during_a_dip_cannot_re_open_a_paid_yield_interval() {
    let mut m = deploy();

    let alice = m.fund(100 * UNIT);
    m.deposit(alice, 100 * UNIT);
    m.split(alice, 100 * UNIT);
    m.set_rate(RATE_1_10);
    let alice_paid = m.claim(alice);
    assert_eq!(alice_paid, 90_909_090, "the first claim");
    assert_eq!(
        m.owed(alice),
        0,
        "Alice is paid up at the peak"
    );

    m.set_rate(RATE_1_05);
    let carol = m.fund(100 * UNIT);
    m.deposit(carol, 100 * UNIT);
    m.split(carol, m.sy_balance(carol));
    assert_eq!(m.escrow_shares(), 1_861_471_862, "the escrow holds both positions");

    let sock_puppet = m.account();
    m.transfer_yt(alice, sock_puppet, m.yt_balance(alice));

    m.set_rate(RATE_1_10);
    assert_eq!(
        m.owed(sock_puppet),
        0,
        "the fresh address must not inherit a re-opened interval"
    );

    let reservation = pt_face_reservation(m.pt_supply(), RATE_1_10);
    let surplus = m.escrow_shares() - reservation;
    assert_eq!(reservation, 1_818_181_818, "the reservation");
    assert_eq!(surplus, 43_290_044, "the surplus");

    let carol_owed = m.owed(carol);
    assert!(
        carol_owed > 0 && carol_owed <= surplus,
        "exactly one claim stands against the surplus: owed {} vs surplus {}",
        carol_owed,
        surplus
    );

    let holders = [alice, sock_puppet, carol];
    m.assert_escrow_covers(&holders);
    m.assert_escrow_covers_yt_ledger();

    assert_eq!(m.claim(sock_puppet), 0, "no payout to the sock puppet");
    assert_eq!(m.sy_balance(sock_puppet), 0);

    let carol_claimed = m.claim(carol);
    assert_eq!(
        carol_claimed, carol_owed,
        "Carol's entitlement survives the sock puppet claiming first"
    );
    assert_eq!(m.sy_balance(carol), carol_claimed);
    m.assert_escrow_covers(&holders);
    m.assert_escrow_covers_yt_ledger();

    assert_eq!(m.claim(alice), 0, "the sender kept nothing to re-claim");
}

#[test]
fn re_using_an_address_does_not_forfeit_yield_on_yt_split_after_a_dip() {
    let mut m = deploy();

    let alice = m.fund(200 * UNIT);
    m.deposit(alice, 100 * UNIT);
    m.split(alice, 100 * UNIT);
    m.set_rate(RATE_1_10);
    assert!(m.claim(alice) > 0, "the first position is paid at the peak");

    m.set_rate(RATE_1_05);
    let alice_sy_before = m.sy_balance(alice);
    m.deposit(alice, 100 * UNIT);
    let alice_second = m.sy_balance(alice) - alice_sy_before;
    m.split(alice, alice_second);

    let dave = m.fund(100 * UNIT);
    m.deposit(dave, 100 * UNIT);
    let dave_position = m.sy_balance(dave);
    assert_eq!(dave_position, alice_second, "identical second positions");
    m.split(dave, dave_position);

    assert_eq!(
        m.yt_basis(dave),
        m.yt_basis(alice) - 909_090_910,
        "Alice's basis is her paid-up first position plus Dave's second position"
    );

    m.set_rate(RATE_1_10);
    let alice_owed = m.owed(alice);
    let dave_owed = m.owed(dave);

    assert!(dave_owed > 0, "the clean address earns on the dip recovery");
    assert!(
        (alice_owed - dave_owed).abs() <= 2,
        "a re-used address must earn what a clean one does: alice {} vs dave {}",
        alice_owed,
        dave_owed
    );
    assert!(
        (dave_owed - 43_290_042).abs() <= 2,
        "the second position earns 1.05 -> 1.10 on ~100 UNIT: {}",
        dave_owed
    );

    let holders = [alice, dave];
    m.assert_escrow_covers(&holders);
    m.assert_escrow_covers_yt_ledger();

    let alice_claimed = m.claim(alice);
    let dave_claimed = m.claim(dave);
    assert_eq!(alice_claimed, alice_owed, "Alice collects in full");
    assert_eq!(dave_claimed, dave_owed, "Dave collects in full");
    m.assert_escrow_covers(&holders);
    m.assert_escrow_covers_yt_ledger();
}

struct Rng(u64);

impl Rng {
    fn new(seed: u64) -> Self {
        Rng(seed)
    }
    fn next(&mut self) -> u64 {
        self.0 = self
            .0
            .wrapping_mul(6_364_136_223_846_793_005)
            .wrapping_add(1_442_695_040_888_963_407);
        self.0 >> 33
    }
    fn below(&mut self, n: u64) -> u64 {
        self.next() % n
    }
}

#[test]
fn conservation_holds_across_random_sequences() {

    let mut m = deploy();
    let holders: Vec<u64> = (0..3).map(|_| m.fund(1_000_000 * UNIT)).collect();

    let fresh: Vec<u64> = (0..8).map(|_| m.account()).collect();
    let mut fresh_used: usize = 0;
    let mut fresh_receipts_in_dip: u64 = 0;

    let everyone: Vec<u64> =
        holders.iter().chain(fresh.iter()).cloned().collect();
    let mut rng = Rng::new(0xC0FFEE);
    let mut rate = WAD;
    let mut high_water = WAD;
    let mut value_ops: i128 = 0;
    let mut dips: u64 = 0;
    let mut recoveries: u64 = 0;

    for _ in 0..STEPS {
        let h = everyone[rng.below(everyone.len() as u64) as usize];
        match rng.below(5) {
            0 => {
                let s = holders[rng.below(holders.len() as u64) as usize];
                let amt = (1 + rng.below(50)) as i128 * UNIT;
                if m.underlying_balance(s) >= amt {
                    m.deposit(s, amt);
                    let sy = m.sy_balance(s);
                    if sy > 0 {
                        m.split(s, sy);
                        value_ops += 1;
                    }
                }
            }
            1 => {
                let bal = m.yt_balance(h);
                if bal > 1 {
                    let dipped = rate < high_water;
                    let to_idx = if dipped && fresh_used < fresh.len() && rng.below(2) == 0 {
                        fresh_used += 1;
                        fresh_receipts_in_dip += 1;
                        holders.len() + fresh_used - 1
                    } else {
                        rng.below(everyone.len() as u64) as usize
                    };
                    let to = everyone[to_idx];
                    let amount = 1 + (rng.below(bal as u64) as i128);
                    if amount <= bal {
                        m.transfer_yt(h, to, amount);
                    }
                }
            }
            2 => {
                m.claim(h);
                value_ops += 1;
            }
            3 => {
                if rate >= high_water {
                    let pt = m.pt_balance(h);
                    let yt = m.yt_balance(h);
                    let max = if pt < yt { pt } else { yt };
                    if max > 0 {
                        let amount = 1 + (rng.below(max as u64) as i128);
                        if amount <= max {
                            m.recombine(h, amount);
                            value_ops += 1;
                        }
                    }
                }
            }
            _ => {
                if rng.below(4) == 0 {
                    let dip = (rng.below(20_000_000_000_000_000) + 1) as i128;
                    if rate - dip > WAD / 2 {
                        rate -= dip;
                        dips += 1;
                    }
                } else {
                    rate += (rng.below(20_000_000_000_000_000) + 1) as i128;
                    if rate >= high_water {
                        recoveries += 1;
                    }
                }
                if rate > high_water {
                    high_water = rate;
                }
                m.set_rate(rate);
            }
        }

        m.assert_escrow_covers_yt_ledger();

        if rate >= high_water {
            m.assert_escrow_covers(&everyone);
        }
    }

    assert!(
        dips >= 100 && recoveries >= 100,
        "the regression arm must actually exercise dips and recoveries: {} dips, {} recoveries",
        dips,
        recoveries
    );
    assert_eq!(
        fresh_receipts_in_dip as usize,
        fresh.len(),
        "every bare address must have taken its first YT during a dip, or this \
         sequence never reaches the case it is here to cover"
    );

    rate = high_water;
    m.set_rate(rate);
    m.observe();
    m.assert_escrow_covers(&everyone);
    m.assert_escrow_covers_yt_ledger();

    m.set_time(MATURITY + 1);
    for &h in &everyone {
        m.claim(h);
    }
    m.assert_escrow_covers(&everyone);
    for &h in &everyone {
        let pt = m.pt_balance(h);
        if pt > 0 {
            m.redeem_pt(h, pt);
            value_ops += 1;
        }
    }

    let left = m.escrow_shares();
    assert!(
        left <= value_ops / 2 + 64,
        "leftover escrow {} exceeds the rounding-dust bound for {} value ops: \
         value that no holder can reach is stranded, not rounded",
        left,
        value_ops
    );
}

#[test]
fn the_protocol_fee_is_skimmed_from_the_holders_yield_not_from_principal() {
    let mut m = deploy_with_fee(FEE_500_BPS);
    let alice = m.fund(100 * UNIT);
    m.deposit(alice, 100 * UNIT);
    m.split(alice, 100 * UNIT);
    m.set_rate(RATE_1_10);

    let owed = m.owed(alice);
    assert!(owed > 0, "precondition: there is yield to claim");

    let escrow_before = m.escrow_shares();
    let claimed = m.claim(alice);
    let fee_paid = m.sy_balance(FEE_RECIPIENT);

    assert_eq!(fee_paid, owed * FEE_500_BPS / 10_000, "fee is 5% of the claim");
    assert_eq!(claimed, owed - fee_paid, "claim() returns the NET amount");
    assert_eq!(
        m.sy_balance(alice),
        claimed,
        "the holder receives exactly the net amount"
    );
    assert_eq!(
        escrow_before - m.escrow_shares(),
        claimed + fee_paid,
        "escrow falls by exactly the gross, so nothing is created or stranded"
    );
}

#[test]
fn the_protocol_fee_never_eats_into_pt_coverage() {
    let mut m = deploy_with_fee(FEE_500_BPS);
    let alice = m.fund(100 * UNIT);
    m.deposit(alice, 100 * UNIT);
    m.split(alice, 100 * UNIT);

    m.set_rate(RATE_1_10);
    m.set_rate(RATE_1_05);

    let escrow_before = m.escrow_shares();
    let reservation = pt_face_reservation(m.pt_supply(), RATE_1_05);
    let surplus = escrow_before - reservation;
    assert!(surplus > 0, "precondition: a partial surplus exists");

    let claimed = m.claim(alice);
    let fee_paid = m.sy_balance(FEE_RECIPIENT);

    assert_eq!(
        claimed + fee_paid,
        surplus,
        "holder plus protocol together take exactly the junior surplus"
    );
    assert!(
        m.escrow_shares() >= pt_face_reservation(m.pt_supply(), RATE_1_05),
        "PT reservation survives the fee: escrow {} < reservation {}",
        m.escrow_shares(),
        pt_face_reservation(m.pt_supply(), RATE_1_05)
    );
}

#[test]
fn the_protocol_fee_does_not_move_the_exchange_rate() {
    let mut m = deploy_with_fee(FEE_500_BPS);
    let alice = m.fund(100 * UNIT);
    m.deposit(alice, 100 * UNIT);
    m.split(alice, 100 * UNIT);
    m.set_rate(RATE_1_10);
    let rate_before = m.rate();
    let supply_before = m.sy.total_supply();

    let claimed = m.claim(alice);
    assert!(claimed > 0);

    assert_eq!(m.rate(), rate_before, "rate is untouched by the fee");
    assert_eq!(m.sy.total_supply(), supply_before, "SY supply is untouched");
}

#[test]
fn a_zero_fee_market_pays_the_holder_everything() {
    let mut m = deploy_with_fee(0);
    let alice = m.fund(100 * UNIT);
    m.deposit(alice, 100 * UNIT);
    m.split(alice, 100 * UNIT);
    m.set_rate(RATE_1_10);
    let owed = m.owed(alice);

    let claimed = m.claim(alice);
    assert_eq!(claimed, owed, "the holder receives the whole claim");
    assert_eq!(
        m.sy_balance(FEE_RECIPIENT),
        0,
        "no fee is paid, and the recipient is never credited"
    );
}

#[test]
fn a_fee_bearing_market_conserves_escrow_across_a_rate_walk() {
    let mut m = deploy_with_fee(FEE_500_BPS);
    let alice = m.fund(100 * UNIT);
    let bob = m.fund(100 * UNIT);
    m.deposit(alice, 100 * UNIT);
    m.deposit(bob, 100 * UNIT);
    m.split(alice, 100 * UNIT);
    m.split(bob, 100 * UNIT);

    let walk = [
        1_050_000_000_000_000_000i128,
        1_200_000_000_000_000_000,
        1_300_000_000_000_000_000,
        1_100_000_000_000_000_000,
        1_131_500_000_000_000_000,
    ];

    let mut protocol_total = 0i128;
    let mut saw_partial_cap = false;
    let mut high_water = m.rate();

    for (step, rate) in walk.iter().enumerate() {
        m.set_rate(*rate);
        if *rate > high_water {
            high_water = *rate;
        }

        for (who, holder) in [("alice", alice), ("bob", bob)] {
            if who == "bob" && step + 1 < walk.len() {
                continue;
            }

            let owed_before = m.owed(holder);
            let escrow_before = m.escrow_shares();
            let holder_before = m.sy_balance(holder);
            let fee_before = m.sy_balance(FEE_RECIPIENT);

            let returned = m.claim(holder);

            let escrow_out = escrow_before - m.escrow_shares();
            let to_holder = m.sy_balance(holder) - holder_before;
            let to_protocol = m.sy_balance(FEE_RECIPIENT) - fee_before;
            protocol_total += to_protocol;
            if escrow_out > 0 && escrow_out < owed_before {
                saw_partial_cap = true;
            }

            assert_eq!(
                returned, to_holder,
                "step {step} {who}: claim_yield must return the NET the holder received"
            );
            assert_eq!(
                escrow_out,
                to_holder + to_protocol,
                "step {step} {who}: every stroop leaving escrow lands on the holder or the protocol"
            );
            assert!(
                to_protocol * 10_000 <= (to_holder + to_protocol) * FEE_500_BPS,
                "step {step} {who}: the protocol never takes more than its bps of the payout"
            );

            let reservation = pt_face_reservation(m.pt_supply(), *rate);
            if escrow_before >= reservation {
                assert!(
                    m.escrow_shares() >= reservation,
                    "step {step} {who}: the claim pushed escrow {} below the PT reservation {}",
                    m.escrow_shares(),
                    reservation
                );
            } else {
                assert_eq!(
                    escrow_out, 0,
                    "step {step} {who}: escrow was already short, so the claim must pay nothing"
                );
            }
        }

        m.assert_escrow_covers_yt_ledger();
        if *rate >= high_water {
            m.assert_escrow_covers(&[alice, bob]);
        }
    }

    assert!(
        protocol_total > 0,
        "the walk must actually exercise the fee path, not just the zero branch"
    );
    assert!(
        saw_partial_cap,
        "the walk never produced a partial cap (0 < pay < owed), so the arm where \
         a fee could eat into PT is untested -- taking the fee from `owed` instead \
         of `pay` would pass this test"
    );
}
