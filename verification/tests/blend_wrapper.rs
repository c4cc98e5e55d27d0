use sidereal::blend_adapter::{
    assets_from_b_tokens, b_tokens_from_assets, derived_exchange_rate, Holding, Positions, Request,
    Reserve, ReserveConfig, ReserveData, BLEND_SCALAR_12, REQUEST_SUPPLY, REQUEST_WITHDRAW,
};
use sidereal::pt_token::PtToken;
use sidereal::sy_wrapper::{Error, Payout, SyWrapper};
use sidereal::tokenizer::Tokenizer;
use sidereal::yt_token::YtToken;
use soroban_sdk::testutils::EnvTestConfig;
use soroban_sdk::Env;
use std::collections::BTreeMap;

const WAD: i128 = 1_000_000_000_000_000_000;
const UNIT: i128 = 10_000_000;
const MATURITY: u64 = 1_000_000;

const ADMIN: u64 = 1;
const UNDERLYING: u64 = 2;
const SY: u64 = 3;
const PT: u64 = 4;
const YT: u64 = 5;
const TOKENIZER: u64 = 6;
const POOL: u64 = 7;
const ALICE: u64 = 8;

/// Why a step failed.
#[derive(Debug)]
enum Refusal {
    Coins,
    Pool,
}

/// What every account holds of the underlying.
#[derive(Clone)]
struct Coins(BTreeMap<u64, i128>);

impl Coins {
    fn balance(&self, who: u64) -> i128 {
        self.0.get(&who).copied().unwrap_or(0)
    }

    fn mint(&mut self, to: u64, n: i128) {
        *self.0.entry(to).or_insert(0) += n;
    }

    fn transfer(&mut self, from: u64, to: u64, n: i128) -> Result<(), Refusal> {
        if n < 0 || self.balance(from) < n {
            return Err(Refusal::Coins);
        }
        *self.0.entry(from).or_insert(0) -= n;
        self.mint(to, n);
        Ok(())
    }
}

/// A lending pool with one reserve that counts.
#[derive(Clone)]
struct Pool {
    id: u64,
    b_rate: i128,
    index: u32,
    reserves: Vec<u64>,
    supply: BTreeMap<u64, i128>,
    fail_withdraw: bool,
}

fn new_pool(id: u64) -> Pool {
    Pool {
        id,
        b_rate: BLEND_SCALAR_12,
        index: 0,
        reserves: vec![UNDERLYING],
        supply: BTreeMap::new(),
        fail_withdraw: false,
    }
}

impl Pool {
    fn reserve(&self) -> Reserve {
        Reserve {
            asset: UNDERLYING,
            config: ReserveConfig {
                c_factor: 0,
                decimals: 7,
                enabled: true,
                index: self.index,
                l_factor: 0,
                max_util: 0,
                r_base: 0,
                r_one: 0,
                r_three: 0,
                r_two: 0,
                reactivity: 0,
                supply_cap: i128::MAX,
                util: 0,
            },
            data: ReserveData {
                b_rate: self.b_rate,
                b_supply: 0,
                backstop_credit: 0,
                d_rate: BLEND_SCALAR_12,
                d_supply: 0,
                ir_mod: 0,
                last_time: 0,
            },
            scalar: UNIT,
        }
    }

    fn supplied(&self, who: u64) -> i128 {
        self.supply.get(&who).copied().unwrap_or(0)
    }

    fn positions(&self, who: u64) -> Positions {
        let mut supply = BTreeMap::new();
        if self.supplied(who) > 0 {
            supply.insert(self.index, self.supplied(who));
        }
        Positions {
            collateral: BTreeMap::new(),
            liabilities: BTreeMap::new(),
            supply,
        }
    }

    /// Serves a request out of, or into, the asker's own balance.
    fn submit(&mut self, coins: &mut Coins, who: u64, request: &Request) -> Result<(), Refusal> {
        assert_eq!(request.address, UNDERLYING);
        let mut supply = self.supplied(who);
        if request.request_type == REQUEST_SUPPLY {
            coins.transfer(who, self.id, request.amount)?;
            supply += b_tokens_from_assets(request.amount, self.b_rate).unwrap();
        } else {
            assert_eq!(request.request_type, REQUEST_WITHDRAW);
            if self.fail_withdraw {
                return Err(Refusal::Pool);
            }
            let requested = (request.amount * BLEND_SCALAR_12 + self.b_rate - 1) / self.b_rate;
            let burned = requested.min(supply);
            let paid = if burned == requested {
                request.amount
            } else {
                assets_from_b_tokens(burned, self.b_rate).unwrap()
            };
            coins.transfer(self.id, who, paid)?;
            supply -= burned;
        }
        self.supply.insert(who, supply);
        Ok(())
    }
}

/// The principal and yield tokens over a SY, and the tokenizer between them.
struct Terms {
    env: Env,
    now: u64,
    pt: PtToken,
    yt: YtToken,
    tokenizer: Tokenizer,
}

fn terms() -> Terms {
    let mut pt = PtToken::new();
    pt.initialize(0, ADMIN, TOKENIZER, SY, MATURITY).unwrap();
    let mut yt = YtToken::new();
    yt.initialize(0, ADMIN, TOKENIZER, SY, MATURITY).unwrap();
    let mut tokenizer = Tokenizer::new();
    tokenizer
        .initialize(0, TOKENIZER, ADMIN, SY, PT, YT, MATURITY, ADMIN, 0)
        .unwrap();
    Terms {
        env: Env::new_with_config(EnvTestConfig {
            capture_snapshot_at_drop: false,
        }),
        now: 0,
        pt,
        yt,
        tokenizer,
    }
}

/// A wrapper that keeps its underlying in a pool.
struct Market {
    coins: Coins,
    pool: Pool,
    sy: SyWrapper,
}

fn market() -> Market {
    let pool = new_pool(POOL);
    let mut sy = SyWrapper::new();
    sy.initialize_blend(ADMIN, UNDERLYING, POOL, &pool.reserves, &pool.reserve())
        .unwrap();
    Market {
        coins: Coins(BTreeMap::new()),
        pool,
        sy,
    }
}

impl Market {
    fn holding(&self) -> Holding {
        let index = self.sy.config().unwrap().reserve_index;
        Holding::read(&self.pool.positions(SY), &self.pool.reserve(), index)
    }

    fn rate(&self) -> i128 {
        self.sy.exchange_rate(&self.holding()).unwrap()
    }

    fn deposit(&mut self, who: u64, n: i128) -> i128 {
        let before = self.holding();
        self.sy.begin_deposit(n, &before).unwrap();
        self.coins.transfer(who, SY, n).unwrap();
        let request = Request::supply(UNDERLYING, n);
        self.pool.submit(&mut self.coins, SY, &request).unwrap();
        let after = self.holding();
        self.sy.deposit(who, n, &before, &after).unwrap()
    }

    fn redeem(&mut self, who: u64, n: i128) -> i128 {
        let priced = self.holding();
        let requested = self.sy.begin_redeem(who, n, &priced).unwrap();
        let before = self.coins.balance(SY);
        let request = Request::withdraw(UNDERLYING, requested);
        let payout = match self.pool.submit(&mut self.coins, SY, &request) {
            Ok(()) => Some(Payout {
                before,
                after: self.coins.balance(SY),
            }),
            Err(_) => None,
        };
        let paid = self.sy.redeem(who, n, &priced, payout).unwrap();
        self.coins.transfer(SY, who, paid).unwrap();
        paid
    }
}

#[test]
fn blend_supply_rate_growth_yield_claim_and_withdraw_round_trip() {
    let mut m = market();
    let mut t = terms();
    t.now = 1;

    m.coins.mint(ALICE, 100 * UNIT);
    let initial_b_rate = 1_055_791_870_000;
    m.pool.b_rate = initial_b_rate;
    let expected_b_tokens = b_tokens_from_assets(100 * UNIT, initial_b_rate).unwrap();
    let expected_shares = assets_from_b_tokens(expected_b_tokens, initial_b_rate).unwrap();
    assert!(
        expected_shares < 100 * UNIT,
        "Blend rounding must be exercised"
    );
    assert_eq!(m.deposit(ALICE, 100 * UNIT), expected_shares);
    assert_eq!(m.rate(), WAD);
    assert_eq!(m.coins.balance(POOL), 100 * UNIT);
    assert_eq!(
        m.pool.positions(SY).supply.get(&0).copied(),
        Some(expected_b_tokens)
    );

    let live = m.rate();
    let (pt, yt) = t
        .tokenizer
        .split(&t.env, t.now, live, expected_shares)
        .unwrap();
    m.sy.transfer(ALICE, TOKENIZER, expected_shares).unwrap();
    t.pt.mint(ALICE, pt).unwrap();
    t.yt.mint(&t.env, ALICE, yt, live).unwrap();

    m.pool.b_rate = 1_100_000_000_000;
    m.coins.mint(POOL, 10 * UNIT);
    let expected_rate = derived_exchange_rate(
        assets_from_b_tokens(expected_b_tokens, 1_100_000_000_000).unwrap(),
        expected_shares,
    )
    .unwrap();
    assert!(expected_rate > WAD);
    assert_eq!(m.rate(), expected_rate);
    assert_eq!(
        m.sy.set_exchange_rate(ADMIN, WAD),
        Err(Error::ReadOnlyExchangeRate)
    );

    let rate = t.tokenizer.claim_rate(t.now, m.rate()).unwrap();
    let owed = t.yt.settle(&t.env, ALICE, rate).unwrap();
    let payment = t
        .tokenizer
        .claim_yield(
            &t.env,
            rate,
            owed,
            m.sy.balance(TOKENIZER),
            t.pt.total_supply(),
        )
        .unwrap();
    t.yt.consume(ALICE, payment.pay).unwrap();
    m.sy.transfer(TOKENIZER, ALICE, payment.net).unwrap();
    let claimed = payment.net;
    assert!(claimed > 0);

    let live = m.rate();
    let principal = t
        .tokenizer
        .recombine(
            &t.env,
            t.now,
            live,
            m.sy.balance(TOKENIZER),
            t.pt.total_supply(),
            expected_shares,
            expected_shares,
        )
        .unwrap();
    t.pt.burn(ALICE, expected_shares).unwrap();
    t.yt.burn_settled(&t.env, ALICE, expected_shares, live)
        .unwrap();
    m.sy.transfer(TOKENIZER, ALICE, principal).unwrap();
    assert!(principal > 0);
    let sy_to_redeem = m.sy.balance(ALICE);
    assert_eq!(sy_to_redeem, claimed + principal);

    let redeemed = m.redeem(ALICE, sy_to_redeem);
    assert!(redeemed > 100 * UNIT);
    assert_eq!(m.coins.balance(SY), 0);
    assert!(m.pool.supplied(SY) < expected_b_tokens);
}

#[test]
fn a_pool_that_refuses_a_redemption_burns_nothing() {
    let mut m = market();
    m.coins.mint(ALICE, 100 * UNIT);
    let shares = m.deposit(ALICE, 100 * UNIT);
    m.pool.fail_withdraw = true;
    assert_eq!(m.redeem(ALICE, shares), 0);
    assert_eq!(m.sy.balance(ALICE), shares);

    m.pool.fail_withdraw = false;
    assert_eq!(m.redeem(ALICE, shares), 100 * UNIT);
    assert_eq!(m.sy.total_supply(), 0);
}
