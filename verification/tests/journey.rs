use sidereal::amm::AmmMarket;
use sidereal::blend_adapter::Holding;
use sidereal::pt_token::PtToken;
use sidereal::sy_wrapper::SyWrapper;
use sidereal::tokenizer::{Position, Tokenizer};
use sidereal::yt_token::{RateSource, YtToken};
use soroban_sdk::testutils::EnvTestConfig;
use soroban_sdk::Env;
use std::collections::BTreeMap;

const WAD: i128 = 1_000_000_000_000_000_000;
const MATURITY: u64 = 1_000_000;
const SCALAR_ROOT: i128 = 2 * WAD;
const INITIAL_ANCHOR: i128 = 1_050_000_000_000_000_000;
const FEE_BPS: i128 = 10;
const TWAP_WINDOW: u64 = 1_800;

const ADMIN: u64 = 1;
const UNDERLYING: u64 = 2;
const SY: u64 = 3;
const PT: u64 = 4;
const YT: u64 = 5;
const TOKENIZER: u64 = 6;
const POOL: u64 = 7;
const USER: u64 = 8;
const UNPOOLED: Holding = Holding {
    b_tokens: 0,
    b_rate: 0,
};

fn open_amm() -> AmmMarket {
    let mut amm = AmmMarket::new();
    amm.initialize(
        0,
        ADMIN,
        PT,
        SY,
        YT,
        TOKENIZER,
        MATURITY,
        SCALAR_ROOT,
        INITIAL_ANCHOR,
        FEE_BPS,
        TWAP_WINDOW,
    )
    .unwrap();
    amm
}

/// One market with all of its parts: the SY, the tokenizer that holds SY in
/// escrow, the two tokens it mints, and the pool that trades them.
struct Market {
    env: Env,
    now: u64,
    sy: SyWrapper,
    pt: PtToken,
    yt: YtToken,
    tokenizer: Tokenizer,
    amm: AmmMarket,
}

fn deploy() -> Market {
    let env = Env::new_with_config(EnvTestConfig {
        capture_snapshot_at_drop: false,
    });
    let mut sy = SyWrapper::new();
    sy.initialize(ADMIN, UNDERLYING).unwrap();
    let mut pt = PtToken::new();
    pt.initialize(0, ADMIN, TOKENIZER, SY, MATURITY).unwrap();
    let mut yt = YtToken::new();
    yt.initialize(0, ADMIN, TOKENIZER, SY, MATURITY).unwrap();
    let mut tokenizer = Tokenizer::new();
    tokenizer
        .initialize(0, TOKENIZER, ADMIN, SY, PT, YT, MATURITY, ADMIN, 0)
        .unwrap();
    Market {
        env,
        now: 0,
        sy,
        pt,
        yt,
        tokenizer,
        amm: open_amm(),
    }
}

impl Market {
    fn rate(&self) -> i128 {
        self.sy.exchange_rate(&UNPOOLED).unwrap()
    }

    fn deposit(&mut self, who: u64, n: i128) -> i128 {
        self.sy.begin_deposit(n, &UNPOOLED).unwrap();
        self.sy.deposit(who, n, &UNPOOLED, &UNPOOLED).unwrap()
    }

    fn split(&mut self, who: u64, n: i128) -> (i128, i128) {
        let rate = self.rate();
        let (pt, yt) = self.tokenizer.split(&self.env, self.now, rate, n).unwrap();
        self.sy.transfer(who, TOKENIZER, n).unwrap();
        self.pt.mint(who, pt).unwrap();
        self.yt.mint(&self.env, who, yt, rate).unwrap();
        (pt, yt)
    }

    fn recombine(&mut self, who: u64, pt: i128, yt: i128) -> i128 {
        let rate = self.rate();
        let escrow = self.escrowed_sy();
        let supply = self.pt.total_supply();
        let paid = self
            .tokenizer
            .recombine(&self.env, self.now, rate, escrow, supply, pt, yt)
            .unwrap();
        self.pt.burn(who, pt).unwrap();
        self.yt.burn_settled(&self.env, who, yt, rate).unwrap();
        self.sy.transfer(TOKENIZER, who, paid).unwrap();
        paid
    }

    fn redeem_at_maturity(&mut self, who: u64, pt: i128) -> i128 {
        let rate = self.rate();
        let escrow = self.escrowed_sy();
        let supply = self.pt.total_supply();
        let paid = self
            .tokenizer
            .redeem_at_maturity(&self.env, self.now, rate, escrow, supply, pt)
            .unwrap();
        self.pt.burn(who, pt).unwrap();
        self.sy.transfer(TOKENIZER, who, paid).unwrap();
        paid
    }

    fn escrowed_sy(&self) -> i128 {
        self.sy.balance(TOKENIZER)
    }

    fn position(&self, who: u64) -> Position {
        self.tokenizer
            .position(self.pt.balance(who), self.yt.balance(who))
            .unwrap()
    }

    fn transfer_yt(&mut self, from: u64, to: u64, n: i128) {
        let live = self.rate();
        let config = self.yt.config().unwrap();
        let rate = match YtToken::committing_rate(&config, self.now) {
            RateSource::ObserveRate => self.tokenizer.observe_rate(self.now, live).unwrap(),
            RateSource::FreezeMaturityRate => {
                self.tokenizer.freeze_maturity_rate(self.now, live).unwrap()
            }
        };
        self.yt.transfer(&self.env, from, to, n, rate).unwrap();
    }

    fn add_liquidity(&mut self, from: u64, pt: i128, sy: i128) {
        let plan = self
            .amm
            .add_liquidity(self.now, self.rate(), from, pt, sy, 0)
            .unwrap();
        self.pt.transfer(from, POOL, plan.pt_used).unwrap();
        self.sy.transfer(from, POOL, plan.sy_used).unwrap();
        let (pool_pt, pool_sy) = (self.pt.balance(POOL), self.sy.balance(POOL));
        self.amm.record_deposit(plan, pool_pt, pool_sy);
    }

    /// Buys YT: the pool adds the PT leg, splits, and hands the YT over.
    fn swap_sy_for_yt(&mut self, from: u64, sy_in: i128, min: i128) -> i128 {
        let plan = self
            .amm
            .swap_sy_for_yt(self.now, self.rate(), sy_in, min)
            .unwrap();
        self.sy.transfer(from, POOL, plan.buyer_cost).unwrap();
        let (_, minted) = self.split(POOL, plan.shares_to_split);
        self.transfer_yt(POOL, from, plan.yt_out);
        let (pool_pt, pool_sy) = (self.pt.balance(POOL), self.sy.balance(POOL));
        self.amm
            .settle_yt_purchase(self.now, plan, minted, pool_pt, pool_sy)
            .unwrap()
    }

    /// Sells YT: the pool recombines it with its own PT and pays in SY.
    fn swap_yt_for_sy(&mut self, from: u64, yt_in: i128, min: i128) -> i128 {
        let plan = self
            .amm
            .swap_yt_for_sy(self.now, self.rate(), yt_in, min)
            .unwrap();
        self.transfer_yt(from, POOL, plan.yt_in);
        let received = self.recombine(POOL, yt_in, yt_in);
        self.sy.transfer(POOL, from, plan.sy_out).unwrap();
        let (pool_pt, pool_sy) = (self.pt.balance(POOL), self.sy.balance(POOL));
        self.amm
            .settle_yt_sale(self.now, plan, received, pool_pt, pool_sy)
            .unwrap()
    }
}

/// A pool over two plain tokens.
struct Settlement {
    amm: AmmMarket,
    pt: BTreeMap<u64, i128>,
    sy: BTreeMap<u64, i128>,
}

fn deploy_settlement_amm() -> Settlement {
    let mut pt = BTreeMap::new();
    let mut sy = BTreeMap::new();
    for account in [USER, POOL] {
        let held = if account == USER { 2_000_000_000_000 } else { 0 };
        pt.insert(account, held);
        sy.insert(account, held);
    }
    Settlement {
        amm: open_amm(),
        pt,
        sy,
    }
}

fn pay(ledger: &mut BTreeMap<u64, i128>, from: u64, to: u64, n: i128) {
    assert!(n >= 0 && ledger[&from] >= n);
    *ledger.get_mut(&from).unwrap() -= n;
    *ledger.get_mut(&to).unwrap() += n;
}

impl Settlement {
    fn add_liquidity(&mut self, pt: i128, sy: i128) {
        let plan = self.amm.add_liquidity(0, WAD, USER, pt, sy, 0).unwrap();
        pay(&mut self.pt, USER, POOL, plan.pt_used);
        pay(&mut self.sy, USER, POOL, plan.sy_used);
        self.amm.record_deposit(plan, self.pt[&POOL], self.sy[&POOL]);
    }

    fn swap_sy_for_pt(&mut self, sy_in: i128) -> i128 {
        let plan = self.amm.swap_sy_for_pt(0, WAD, sy_in, 0).unwrap();
        pay(&mut self.sy, USER, POOL, plan.amount_in);
        pay(&mut self.pt, POOL, USER, plan.amount_out);
        self.amm
            .settle_and_record(
                0,
                plan.state,
                plan.prevailing_ln_rate,
                self.pt[&POOL],
                self.sy[&POOL],
            )
            .unwrap();
        plan.amount_out
    }

    fn swap_pt_for_sy(&mut self, pt_in: i128) -> i128 {
        let plan = self.amm.swap_pt_for_sy(0, WAD, pt_in, 0).unwrap();
        pay(&mut self.pt, USER, POOL, plan.amount_in);
        pay(&mut self.sy, POOL, USER, plan.amount_out);
        self.amm
            .settle_and_record(
                0,
                plan.state,
                plan.prevailing_ln_rate,
                self.pt[&POOL],
                self.sy[&POOL],
            )
            .unwrap();
        plan.amount_out
    }
}

#[test]
fn split_then_recombine_preserves_sy() {
    let mut m = deploy();

    let deposit = 1_000_000_000_i128;
    let shares = m.deposit(USER, deposit);
    assert_eq!(shares, deposit, "exchange rate starts at 1.0");

    let (pt, yt) = m.split(USER, shares);
    assert_eq!(pt, shares);
    assert_eq!(yt, shares);

    let pos = m.position(USER);
    assert_eq!(pos.pt_balance, pt);
    assert_eq!(pos.yt_balance, yt);

    assert_eq!(m.escrowed_sy(), shares, "escrow equals outstanding PT");
    assert_eq!(m.sy.balance(USER), 0);

    let sy_back = m.recombine(USER, pt, yt);
    assert_eq!(sy_back, shares, "PT + YT = SY invariant across contracts");

    let after = m.position(USER);
    assert_eq!(after.pt_balance, 0);
    assert_eq!(after.yt_balance, 0);
    assert_eq!(m.escrowed_sy(), 0, "escrow drains on recombine");
    assert_eq!(m.sy.balance(USER), shares, "holder gets their SY back");
}

#[test]
fn pt_redeems_one_to_one_after_maturity() {
    let mut m = deploy();
    let shares = m.deposit(USER, 500_000_000);
    let (pt, _) = m.split(USER, shares);

    m.now = MATURITY + 1;

    let sy_out = m.redeem_at_maturity(USER, pt);
    assert_eq!(sy_out, pt, "PT redeems 1:1 for SY at maturity");
}

#[test]
fn amm_wires_to_the_same_market() {
    let mut m = deploy_settlement_amm();

    let liquidity = 1_000_000_000_000_i128;
    m.add_liquidity(liquidity, liquidity);
    assert_eq!(m.pt[&POOL], liquidity);
    assert_eq!(m.sy[&POOL], liquidity);
    let out = m.amm.quote_sy_for_pt(0, WAD, 100_000_000).unwrap();
    assert!(out > 0, "a seeded market returns a positive PT quote");
}

#[test]
fn amm_swap_round_trip_charges_fees() {
    let mut m = deploy_settlement_amm();

    let liquidity = 1_000_000_000_000_i128;
    m.add_liquidity(liquidity, liquidity);

    let sy_in = 1_000_000_000_i128;
    let user_pt_before = m.pt[&USER];
    let user_sy_before = m.sy[&USER];
    let pt_out = m.swap_sy_for_pt(sy_in);
    assert!(pt_out > 0, "buying PT yields PT");
    assert!(
        m.amm.state().unwrap().total_sy > liquidity,
        "SY reserve grows after selling SY in"
    );
    assert_eq!(m.pt[&USER], user_pt_before + pt_out);
    assert_eq!(m.sy[&USER], user_sy_before - sy_in);

    let sy_back = m.swap_pt_for_sy(pt_out);
    assert!(sy_back > 0 && sy_back < sy_in, "round trip loses the fee");
    let state = m.amm.state().unwrap();
    assert_eq!(m.pt[&POOL], state.total_pt);
    assert_eq!(m.sy[&POOL], state.total_sy);
}

#[test]
fn yt_flash_route_round_trips_through_the_tokenizer() {
    let mut m = deploy();
    m.deposit(USER, 2_000_000_000);
    m.split(USER, 1_000_000_000);
    m.add_liquidity(USER, 800_000_000, 800_000_000);

    let yt_before = m.yt.balance(USER);
    let sy_in = 1_000_000_i128;
    let yt_out = m.swap_sy_for_yt(USER, sy_in, 1);
    assert!(yt_out > sy_in, "buying YT is leveraged");
    assert_eq!(m.yt.balance(USER), yt_before + yt_out);
    assert_eq!(
        m.amm.state().unwrap().total_sy,
        m.sy.balance(POOL),
        "reserves reconciled"
    );

    let sy_out = m.swap_yt_for_sy(USER, yt_out, 1);
    assert!(
        sy_out > 0 && sy_out < yt_out,
        "selling YT returns less than face"
    );
}
