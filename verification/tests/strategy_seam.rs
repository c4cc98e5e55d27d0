use sidereal::blend_adapter::{
    assets_from_b_tokens, b_tokens_from_assets, Holding, Positions, Request, Reserve,
    ReserveConfig, ReserveData, BLEND_SCALAR_12, REQUEST_SUPPLY, REQUEST_WITHDRAW,
};
use sidereal::pt_token::PtToken;
use sidereal::strategy_blend::{derive_reserve_index, StrategyBlend, Upstream, Withdrawn};
use sidereal::strategy_interface::StrategyError;
use sidereal::sy_vault_v2::{
    Credit, Delivery, Deposited, Error as VaultError, Redeemed, SyVaultV2, MINIMUM_SHARES,
};
use sidereal::sy_wrapper::{Payout, SyWrapper};
use sidereal::tokenizer::Tokenizer;
use sidereal::yt_token::YtToken;
use soroban_sdk::testutils::EnvTestConfig;
use soroban_sdk::Env;
use std::collections::BTreeMap;

const UNIT: i128 = 10_000_000;
const WAD: i128 = 1_000_000_000_000_000_000;
const MATURITY: u64 = 1_000_000;

const ADMIN: u64 = 1;
const UNDERLYING: u64 = 2;
/// The vault's own address; its shares are the SY of a market over it.
const SY: u64 = 3;
const PT: u64 = 4;
const YT: u64 = 5;
const TOKENIZER: u64 = 6;
const POOL: u64 = 7;
const STRATEGY: u64 = 8;
const SINK: u64 = 9;
const USER: u64 = 10;
const OTHER: u64 = 11;
const STRANGER: u64 = 12;
const BORROWER: u64 = 13;
const DONOR: u64 = 14;
const ATTACKER: u64 = 15;
const VICTIM: u64 = 16;
const LATECOMER: u64 = 17;
const WRAPPED: u64 = 18;
const WRAPPED_POOL: u64 = 19;

/// Why a call failed.
#[derive(Clone, Copy, Debug, PartialEq, Eq)]
enum Refusal {
    Coins,
    Pool,
    Strategy(StrategyError),
    Vault(VaultError),
}

/// What every account holds of the underlying.
#[derive(Clone)]
struct Coins(BTreeMap<u64, i128>);

impl Coins {
    fn balance(&self, who: u64) -> i128 {
        self.0.get(&who).copied().unwrap_or(0)
    }

    fn mint(&mut self, to: u64, n: i128) {
        *self.0.entry(to).or_insert(0) += n;
    }

    fn transfer(&mut self, from: u64, to: u64, n: i128) -> Result<(), Refusal> {
        if n < 0 || self.balance(from) < n {
            return Err(Refusal::Coins);
        }
        *self.0.entry(from).or_insert(0) -= n;
        self.mint(to, n);
        Ok(())
    }
}

/// A lending pool with one reserve that counts.
#[derive(Clone)]
struct Pool {
    id: u64,
    b_rate: i128,
    index: u32,
    reserves: Vec<u64>,
    supply: BTreeMap<u64, i128>,
    fail_withdraw: bool,
}

fn new_pool(id: u64) -> Pool {
    Pool {
        id,
        b_rate: BLEND_SCALAR_12,
        index: 0,
        reserves: vec![UNDERLYING],
        supply: BTreeMap::new(),
        fail_withdraw: false,
    }
}

impl Pool {
    fn reserve(&self) -> Reserve {
        Reserve {
            asset: UNDERLYING,
            config: ReserveConfig {
                c_factor: 0,
                decimals: 7,
                enabled: true,
                index: self.index,
                l_factor: 0,
                max_util: 0,
                r_base: 0,
                r_one: 0,
                r_three: 0,
                r_two: 0,
                reactivity: 0,
                supply_cap: i128::MAX,
                util: 0,
            },
            data: ReserveData {
                b_rate: self.b_rate,
                b_supply: 0,
                backstop_credit: 0,
                d_rate: BLEND_SCALAR_12,
                d_supply: 0,
                ir_mod: 0,
                last_time: 0,
            },
            scalar: UNIT,
        }
    }

    fn supplied(&self, who: u64) -> i128 {
        self.supply.get(&who).copied().unwrap_or(0)
    }

    fn positions(&self, who: u64) -> Positions {
        let mut supply = BTreeMap::new();
        if self.supplied(who) > 0 {
            supply.insert(self.index, self.supplied(who));
        }
        Positions {
            collateral: BTreeMap::new(),
            liabilities: BTreeMap::new(),
            supply,
        }
    }

    /// Serves a request out of, or into, the asker's own balance.
    fn submit(&mut self, coins: &mut Coins, who: u64, request: &Request) -> Result<(), Refusal> {
        assert_eq!(request.address, UNDERLYING);
        let mut supply = self.supplied(who);
        if request.request_type == REQUEST_SUPPLY {
            coins.transfer(who, self.id, request.amount)?;
            supply += b_tokens_from_assets(request.amount, self.b_rate).unwrap();
        } else {
            assert_eq!(request.request_type, REQUEST_WITHDRAW);
            if self.fail_withdraw {
                return Err(Refusal::Pool);
            }
            let requested = (request.amount * BLEND_SCALAR_12 + self.b_rate - 1) / self.b_rate;
            let burned = requested.min(supply);
            let paid = if burned == requested {
                request.amount
            } else {
                assets_from_b_tokens(burned, self.b_rate).unwrap()
            };
            coins.transfer(self.id, who, paid)?;
            supply -= burned;
        }
        self.supply.insert(who, supply);
        Ok(())
    }
}

/// The principal and yield tokens over a SY, and the tokenizer between them.
struct Terms {
    env: Env,
    now: u64,
    pt: PtToken,
    yt: YtToken,
    tokenizer: Tokenizer,
}

fn terms() -> Terms {
    let mut pt = PtToken::new();
    pt.initialize(0, ADMIN, TOKENIZER, SY, MATURITY).unwrap();
    let mut yt = YtToken::new();
    yt.initialize(0, ADMIN, TOKENIZER, SY, MATURITY).unwrap();
    let mut tokenizer = Tokenizer::new();
    tokenizer
        .initialize(0, TOKENIZER, ADMIN, SY, PT, YT, MATURITY, ADMIN, 0)
        .unwrap();
    Terms {
        env: Env::new_with_config(EnvTestConfig {
            capture_snapshot_at_drop: false,
        }),
        now: 0,
        pt,
        yt,
        tokenizer,
    }
}

/// What a vault asks of its strategy.
trait Source: Clone {
    fn vault(&self) -> u64;
    fn underlying(&self) -> u64;
    fn total_assets(&self, coins: &Coins) -> Result<i128, Refusal>;
    fn max_withdraw(&self, coins: &Coins) -> Result<i128, Refusal>;
    fn deposit(&mut self, coins: &mut Coins, caller: u64, n: i128) -> Result<i128, Refusal>;
    fn withdraw(
        &mut self,
        coins: &mut Coins,
        caller: u64,
        n: i128,
        min: i128,
    ) -> Result<i128, Refusal>;
}

/// The strategy under test, with the pool it supplies to.
#[derive(Clone)]
struct Blend {
    core: StrategyBlend,
    pool: Pool,
}

fn open_blend(vault: u64) -> Blend {
    let pool = new_pool(POOL);
    let mut core = StrategyBlend::new();
    core.initialize(ADMIN, vault, UNDERLYING, POOL, &pool.reserves, &pool.reserve())
        .unwrap();
    Blend { core, pool }
}

impl Blend {
    fn upstream(&self) -> Upstream {
        Upstream {
            positions: self.pool.positions(STRATEGY),
            reserve: self.pool.reserve(),
        }
    }

    fn migrate(&mut self, admin: u64) -> Result<u32, StrategyError> {
        let migrated =
            self.core
                .migrate_reserve_index(admin, &self.pool.reserves, &self.pool.reserve())?;
        Ok(migrated.new_index)
    }
}

impl Source for Blend {
    fn vault(&self) -> u64 {
        self.core.vault().unwrap()
    }

    fn underlying(&self) -> u64 {
        self.core.underlying().unwrap()
    }

    fn total_assets(&self, _: &Coins) -> Result<i128, Refusal> {
        self.core
            .total_assets(&self.upstream())
            .map_err(Refusal::Strategy)
    }

    fn max_withdraw(&self, coins: &Coins) -> Result<i128, Refusal> {
        self.core
            .max_withdraw(
                &self.upstream(),
                coins.balance(STRATEGY),
                coins.balance(POOL),
            )
            .map_err(Refusal::Strategy)
    }

    fn deposit(&mut self, coins: &mut Coins, caller: u64, n: i128) -> Result<i128, Refusal> {
        let before = self.upstream();
        self.core
            .begin_deposit(caller, n, &before)
            .map_err(Refusal::Strategy)?;
        coins.transfer(caller, STRATEGY, n)?;
        self.pool
            .submit(coins, STRATEGY, &Request::supply(UNDERLYING, n))?;
        let deposited = self
            .core
            .deposit(caller, n, &before, &self.upstream())
            .map_err(Refusal::Strategy)?;
        assert_eq!(deposited.amount, n);
        Ok(deposited.credited)
    }

    fn withdraw(
        &mut self,
        coins: &mut Coins,
        caller: u64,
        n: i128,
        min: i128,
    ) -> Result<i128, Refusal> {
        let idle_before = coins.balance(STRATEGY);
        let sourcing = self
            .core
            .begin_withdraw(caller, n, idle_before)
            .map_err(Refusal::Strategy)?;
        let mut idle_after = None;
        if sourcing.shortfall > 0 {
            let request = Request::withdraw(UNDERLYING, sourcing.shortfall);
            if self.pool.submit(coins, STRATEGY, &request).is_ok() {
                idle_after = Some(coins.balance(STRATEGY));
            }
        }
        let upstream = self.upstream();
        let withdrawn = self
            .core
            .withdraw(caller, n, min, idle_before, idle_after, Some(&upstream))
            .map_err(Refusal::Strategy)?;
        assert_eq!(withdrawn.requested, n);
        coins.transfer(STRATEGY, caller, withdrawn.delivered)?;
        Ok(withdrawn.delivered)
    }
}

/// A strategy that keeps its underlying itself and can be told to misbehave.
#[derive(Clone, Default)]
struct Hostile {
    shave: i128,
    liquidity_cap: Option<i128>,
    report_inflation: i128,
    paused: bool,
    invested: i128,
    exclude_idle: bool,
}

impl Source for Hostile {
    fn vault(&self) -> u64 {
        SY
    }

    fn underlying(&self) -> u64 {
        UNDERLYING
    }

    fn total_assets(&self, coins: &Coins) -> Result<i128, Refusal> {
        Ok(if self.exclude_idle {
            self.invested
        } else {
            coins.balance(STRATEGY)
        })
    }

    fn max_withdraw(&self, coins: &Coins) -> Result<i128, Refusal> {
        let assets = self.total_assets(coins)?;
        Ok(match self.liquidity_cap {
            Some(cap) if cap < assets => cap,
            _ => assets,
        })
    }

    fn deposit(&mut self, coins: &mut Coins, caller: u64, n: i128) -> Result<i128, Refusal> {
        if caller != SY {
            return Err(Refusal::Strategy(StrategyError::NotVault));
        }
        if self.paused {
            return Err(Refusal::Strategy(StrategyError::UpstreamPaused));
        }
        let before = coins.balance(STRATEGY);
        coins.transfer(caller, STRATEGY, n)?;
        coins.transfer(STRATEGY, SINK, self.shave)?;
        let credited = coins.balance(STRATEGY) - before;
        self.invested += credited;
        Ok(credited)
    }

    fn withdraw(
        &mut self,
        coins: &mut Coins,
        caller: u64,
        n: i128,
        min: i128,
    ) -> Result<i128, Refusal> {
        if caller != SY {
            return Err(Refusal::Strategy(StrategyError::NotVault));
        }
        let delivered = n.min(self.max_withdraw(coins)?);
        if delivered <= 0 {
            return Err(Refusal::Strategy(StrategyError::WithdrawalFailed));
        }
        if delivered < min {
            return Err(Refusal::Strategy(StrategyError::SlippageExceeded));
        }
        let idle = coins.balance(STRATEGY) - self.invested;
        self.invested -= delivered - idle.min(delivered);
        coins.transfer(STRATEGY, caller, delivered)?;
        Ok(delivered + self.report_inflation)
    }
}

/// A vault, its strategy, and the underlying. A call that fails leaves all three
/// as they were.
#[derive(Clone)]
struct Market<S: Source> {
    coins: Coins,
    source: S,
    vault: SyVaultV2,
}

fn open_vault<S: Source>(source: &S) -> Result<SyVaultV2, VaultError> {
    let mut vault = SyVaultV2::new();
    vault.initialize(SY, ADMIN, STRATEGY, source.vault(), source.underlying())?;
    Ok(vault)
}

fn market<S: Source>(source: S) -> Market<S> {
    let mut coins = Coins(BTreeMap::new());
    for account in [USER, ATTACKER, VICTIM] {
        coins.mint(account, 10_000 * UNIT);
    }
    coins.mint(LATECOMER, 10 * UNIT);
    coins.mint(DONOR, 10_000 * UNIT);
    let vault = open_vault(&source).unwrap();
    Market {
        coins,
        source,
        vault,
    }
}

fn blend_market() -> Market<Blend> {
    market(open_blend(SY))
}

fn mock_market() -> Market<Hostile> {
    market(Hostile::default())
}

impl<S: Source> Market<S> {
    fn total_assets(&self) -> i128 {
        self.source.total_assets(&self.coins).unwrap()
    }

    fn max_withdraw(&self) -> i128 {
        self.source.max_withdraw(&self.coins).unwrap()
    }

    fn try_rate(&self) -> Result<i128, Refusal> {
        let assets = self.source.total_assets(&self.coins)?;
        self.vault.exchange_rate(assets).map_err(Refusal::Vault)
    }

    fn rate(&self) -> i128 {
        self.try_rate().unwrap()
    }

    fn accrued_yield(&self, holder: u64) -> i128 {
        self.vault
            .accrued_yield(holder, self.total_assets())
            .unwrap()
    }

    fn try_preview_deposit(&self, n: i128) -> Result<i128, VaultError> {
        self.vault.preview_deposit(n, self.total_assets())
    }

    fn preview_deposit(&self, n: i128) -> i128 {
        self.try_preview_deposit(n).unwrap()
    }

    fn try_preview_redeem(&self, n: i128) -> Result<i128, VaultError> {
        self.vault.preview_redeem(n, self.total_assets())
    }

    fn enter(&mut self, from: u64, n: i128, min: i128) -> Result<Deposited, Refusal> {
        let assets = self.source.total_assets(&self.coins)?;
        self.vault
            .begin_deposit(n, min, assets)
            .map_err(Refusal::Vault)?;
        self.coins.transfer(from, SY, n)?;
        let assets_credited = self.source.deposit(&mut self.coins, SY, n)?;
        let credit = Credit {
            assets_credited,
            total_assets: self.source.total_assets(&self.coins)?,
        };
        self.vault
            .deposit(from, n, min, assets, credit)
            .map_err(Refusal::Vault)
    }

    fn leave(&mut self, from: u64, n: i128, min: i128) -> Result<Redeemed, Refusal> {
        let assets = self.source.total_assets(&self.coins)?;
        let redemption = self
            .vault
            .begin_redeem(from, n, min, assets)
            .map_err(Refusal::Vault)?;
        let before = self.coins.balance(SY);
        let reported = self
            .source
            .withdraw(&mut self.coins, SY, redemption.requested, min)?;
        let delivery = Delivery {
            reported,
            before,
            after: self.coins.balance(SY),
        };
        let redeemed = self
            .vault
            .finish_redeem(&redemption, min, &delivery)
            .map_err(Refusal::Vault)?;
        self.coins.transfer(SY, from, redeemed.underlying_out)?;
        Ok(redeemed)
    }

    fn try_deposit(&mut self, from: u64, n: i128, min: i128) -> Result<i128, Refusal> {
        let kept = self.clone();
        match self.enter(from, n, min) {
            Ok(deposited) => Ok(deposited.sy_out),
            Err(refusal) => {
                *self = kept;
                Err(refusal)
            }
        }
    }

    fn deposit(&mut self, from: u64, n: i128, min: i128) -> i128 {
        self.try_deposit(from, n, min).unwrap()
    }

    fn try_redeem(&mut self, from: u64, n: i128, min: i128) -> Result<i128, Refusal> {
        let kept = self.clone();
        match self.leave(from, n, min) {
            Ok(redeemed) => Ok(redeemed.underlying_out),
            Err(refusal) => {
                *self = kept;
                Err(refusal)
            }
        }
    }

    fn redeem(&mut self, from: u64, n: i128, min: i128) -> i128 {
        self.try_redeem(from, n, min).unwrap()
    }

    /// A plain transfer of underlying to the strategy's address.
    fn donate(&mut self, from: u64, n: i128) {
        self.coins.transfer(from, STRATEGY, n).unwrap();
    }

    fn conforms(&mut self) {
        assert_eq!(self.source.vault(), SY, "strategy must name its vault");
        assert_eq!(
            self.source.underlying(),
            UNDERLYING,
            "strategy must name its underlying"
        );
        assert!(
            self.max_withdraw() <= self.total_assets(),
            "max_withdraw must never exceed total_assets"
        );
        let kept = self.clone();
        assert!(
            self.source
                .deposit(&mut self.coins, STRANGER, UNIT)
                .is_err(),
            "deposit must reject a non-vault caller"
        );
        *self = kept.clone();
        assert!(
            self.source
                .withdraw(&mut self.coins, STRANGER, UNIT, 0)
                .is_err(),
            "withdraw must reject a non-vault caller"
        );
        *self = kept;
    }

    fn split(&mut self, t: &mut Terms, who: u64, n: i128) -> (i128, i128) {
        let rate = self.rate();
        let (pt, yt) = t.tokenizer.split(&t.env, t.now, rate, n).unwrap();
        self.vault.transfer(who, TOKENIZER, n).unwrap();
        t.pt.mint(who, pt).unwrap();
        t.yt.mint(&t.env, who, yt, rate).unwrap();
        (pt, yt)
    }

    fn owed(&self, t: &Terms, holder: u64) -> i128 {
        let config = t.yt.config().unwrap();
        let frozen = t.tokenizer.maturity_rate().unwrap();
        let rate = YtToken::preview_rate(&config, t.now, self.rate(), frozen);
        t.yt.preview_claim_yield(&t.env, holder, rate).unwrap()
    }

    fn claim(&mut self, t: &mut Terms, holder: u64) -> i128 {
        let rate = t.tokenizer.claim_rate(t.now, self.rate()).unwrap();
        let owed = t.yt.settle(&t.env, holder, rate).unwrap();
        let escrow = self.vault.balance(TOKENIZER);
        let payment = t
            .tokenizer
            .claim_yield(&t.env, rate, owed, escrow, t.pt.total_supply())
            .unwrap();
        t.yt.consume(holder, payment.pay).unwrap();
        self.vault.transfer(TOKENIZER, holder, payment.net).unwrap();
        payment.net
    }

    fn redeem_at_maturity(&mut self, t: &mut Terms, who: u64, n: i128) -> i128 {
        let escrow = self.vault.balance(TOKENIZER);
        let supply = t.pt.total_supply();
        let paid = t
            .tokenizer
            .redeem_at_maturity(&t.env, t.now, self.rate(), escrow, supply, n)
            .unwrap();
        t.pt.burn(who, n).unwrap();
        self.vault.transfer(TOKENIZER, who, paid).unwrap();
        paid
    }
}

impl Market<Blend> {
    /// A borrower takes cash out of the pool.
    fn drain(&mut self, n: i128) {
        self.coins.transfer(POOL, BORROWER, n).unwrap();
    }

    /// The pool moves the underlying from the first slot to the second.
    fn reindex(&mut self) {
        self.source.pool.reserves = vec![OTHER, UNDERLYING];
        self.source.pool.index = 1;
    }
}

/// The wrapper that keeps its own position in a pool, without a strategy.
struct Wrapped {
    sy: SyWrapper,
    pool: Pool,
    coins: Coins,
}

fn wrapped() -> Wrapped {
    let pool = new_pool(WRAPPED_POOL);
    let mut sy = SyWrapper::new();
    sy.initialize_blend(ADMIN, UNDERLYING, WRAPPED_POOL, &pool.reserves, &pool.reserve())
        .unwrap();
    let mut coins = Coins(BTreeMap::new());
    coins.mint(USER, 10_000 * UNIT);
    Wrapped { sy, pool, coins }
}

impl Wrapped {
    fn holding(&self) -> Holding {
        Holding::read(&self.pool.positions(WRAPPED), &self.pool.reserve(), 0)
    }

    fn rate(&self) -> i128 {
        self.sy.exchange_rate(&self.holding()).unwrap()
    }

    fn deposit(&mut self, who: u64, n: i128) -> i128 {
        let before = self.holding();
        self.sy.begin_deposit(n, &before).unwrap();
        self.coins.transfer(who, WRAPPED, n).unwrap();
        self.pool
            .submit(&mut self.coins, WRAPPED, &Request::supply(UNDERLYING, n))
            .unwrap();
        let after = self.holding();
        self.sy.deposit(who, n, &before, &after).unwrap()
    }

    fn redeem(&mut self, who: u64, n: i128) -> i128 {
        let priced = self.holding();
        let requested = self.sy.begin_redeem(who, n, &priced).unwrap();
        let before = self.coins.balance(WRAPPED);
        let request = Request::withdraw(UNDERLYING, requested);
        let payout = match self.pool.submit(&mut self.coins, WRAPPED, &request) {
            Ok(()) => Some(Payout {
                before,
                after: self.coins.balance(WRAPPED),
            }),
            Err(_) => None,
        };
        let paid = self.sy.redeem(who, n, &priced, payout).unwrap();
        self.coins.transfer(WRAPPED, who, paid).unwrap();
        paid
    }
}

#[test]
fn strategy_blend_satisfies_the_battery() {
    let mut market = blend_market();
    market.deposit(USER, 100 * UNIT, 0);
    market.conforms();
}

#[test]
fn mock_strategy_satisfies_the_battery() {
    let mut market = mock_market();
    market.deposit(USER, 100 * UNIT, 0);
    market.conforms();
}

#[test]
fn deposit_returns_measured_delta_not_the_requested_amount() {
    let mut market = mock_market();

    market.source.shave = 3;

    let before = market.total_assets();
    let credited = market.enter(USER, 100 * UNIT, 0).unwrap().assets_credited;
    let after = market.total_assets();

    assert_eq!(
        credited,
        after - before,
        "deposit must report the measured change in assets"
    );
    assert_eq!(credited, 100 * UNIT - 3, "the shaved units must not be credited");
}

#[test]
fn withdraw_enforces_min_underlying_out() {
    let mut market = mock_market();
    market.deposit(USER, 100 * UNIT, 0);
    market.source.liquidity_cap = Some(40 * UNIT);

    assert!(
        market
            .source
            .withdraw(&mut market.coins, SY, 100 * UNIT, 90 * UNIT)
            .is_err(),
        "a short delivery below min_underlying_out must revert"
    );
    assert_eq!(
        market
            .source
            .withdraw(&mut market.coins, SY, 100 * UNIT, 40 * UNIT),
        Ok(40 * UNIT)
    );
}

#[test]
fn max_withdraw_tracks_realizable_liquidity_not_nominal_assets() {
    let mut market = mock_market();
    market.deposit(USER, 100 * UNIT, 0);

    assert_eq!(market.max_withdraw(), 100 * UNIT);
    market.source.liquidity_cap = Some(25 * UNIT);
    assert_eq!(market.max_withdraw(), 25 * UNIT);
    assert_eq!(
        market.total_assets(),
        100 * UNIT,
        "valuation is unchanged by a liquidity squeeze"
    );
}

#[test]
fn blend_max_withdraw_is_bounded_by_pool_cash() {
    let mut market = blend_market();
    market.deposit(USER, 100 * UNIT, 0);

    assert_eq!(market.total_assets(), 100 * UNIT);
    assert_eq!(market.max_withdraw(), 100 * UNIT);

    market.drain(70 * UNIT);

    assert_eq!(
        market.total_assets(),
        100 * UNIT,
        "the supplied position is still worth 100"
    );
    assert_eq!(
        market.max_withdraw(),
        30 * UNIT,
        "but only 30 can presently be paid out"
    );
}

#[test]
fn strategy_binding_is_immutable() {
    let mut market = blend_market();
    let pool = market.source.pool.clone();
    assert_eq!(
        market.source.core.initialize(
            ADMIN,
            OTHER,
            UNDERLYING,
            POOL,
            &pool.reserves,
            &pool.reserve()
        ),
        Err(StrategyError::AlreadyInitialized),
        "a strategy cannot be re-initialized onto another vault"
    );
    assert_eq!(
        market.vault.initialize(SY, ADMIN, STRATEGY, SY, UNDERLYING),
        Err(VaultError::AlreadyInitialized),
        "a vault cannot be re-initialized onto another strategy"
    );
}

#[test]
fn exchange_rate_is_derived_from_the_strategy_and_has_no_setter() {
    let mut market = blend_market();

    assert_eq!(market.rate(), WAD, "bootstraps at 1.0");
    market.deposit(USER, 100 * UNIT, 0);
    assert_eq!(market.rate(), WAD);

    market.source.pool.b_rate = 1_250_000_000_000;
    assert_eq!(market.rate(), 1_250_000_000_000_000_000);
    assert_eq!(market.total_assets(), 125 * UNIT);
}

#[test]
fn deposit_mints_against_credited_assets_not_the_requested_amount() {
    let mut market = mock_market();

    market.source.shave = UNIT;
    let minted = market.deposit(USER, 100 * UNIT, 0);

    assert_eq!(
        minted,
        99 * UNIT - MINIMUM_SHARES,
        "SY is minted against what the strategy actually credited, less the \
         opening lock"
    );
    assert_eq!(market.vault.total_supply(), 99 * UNIT);
    assert_eq!(market.total_assets(), 99 * UNIT);
    assert_eq!(market.rate(), WAD);
}

#[test]
fn deposit_enforces_min_sy_out() {
    let mut market = mock_market();
    market.source.shave = 5 * UNIT;

    assert!(
        market.try_deposit(USER, 100 * UNIT, 100 * UNIT)
            .is_err(),
        "a deposit that would mint below min_sy_out must revert"
    );
    assert_eq!(market.vault.total_supply(), 0, "nothing was minted");
}

#[test]
fn redeem_verifies_delivery_and_rejects_a_lying_strategy() {
    let mut market = mock_market();
    market.deposit(USER, 100 * UNIT, 0);

    market.source.report_inflation = 10 * UNIT;

    let held = market.vault.balance(USER);
    let result = market.try_redeem(USER, 50 * UNIT, 0);
    assert!(
        result.is_err(),
        "the vault must trust its own measurement over the strategy's report"
    );
    assert_eq!(market.vault.balance(USER), held);
}

#[test]
fn redeem_enforces_min_underlying_out() {
    let mut market = mock_market();
    let held = market.deposit(USER, 100 * UNIT, 0);
    market.source.liquidity_cap = Some(30 * UNIT);

    assert!(
        market.try_redeem(USER, 50 * UNIT, 50 * UNIT)
            .is_err(),
        "a short delivery below the caller's floor must revert rather than settle"
    );
    assert_eq!(market.vault.balance(USER), held, "no SY was burned");
}

#[test]
fn redeem_round_trips_and_returns_the_underlying() {
    let mut market = blend_market();

    let start = market.coins.balance(USER);
    let held = market.deposit(USER, 100 * UNIT, 0);
    assert_eq!(market.coins.balance(USER), start - 100 * UNIT);

    market.source.pool.b_rate = 1_100_000_000_000;
    let out = market.redeem(USER, 50 * UNIT, 54 * UNIT);

    assert_eq!(out, 55 * UNIT, "50 SY at rate 1.10");
    assert_eq!(market.coins.balance(USER), start - 100 * UNIT + 55 * UNIT);
    assert_eq!(market.vault.balance(USER), held - 50 * UNIT);
}

#[test]
fn vault_rejects_a_strategy_bound_to_another_vault() {
    let elsewhere = open_blend(OTHER);
    assert_eq!(
        open_vault(&elsewhere).err(),
        Some(VaultError::StrategyMismatch),
        "a mis-wired market must be unconstructable, not merely wrong at runtime"
    );
}

#[test]
fn accrued_yield_tracks_the_rate_and_survives_transfer() {
    let mut market = blend_market();

    let held = market.deposit(USER, 100 * UNIT, 0);
    assert_eq!(market.accrued_yield(USER), 0);

    market.source.pool.b_rate = 1_200_000_000_000;
    let total_accrued = market.accrued_yield(USER);
    assert_eq!(total_accrued, held * 2 / 10);

    market.vault.transfer(USER, OTHER, held / 2).unwrap();
    let user_accrued = market.accrued_yield(USER);
    let other_accrued = market.accrued_yield(OTHER);
    assert_eq!(
        user_accrued + other_accrued,
        total_accrued,
        "a transfer must not create or destroy accrued yield"
    );
    assert!(
        (user_accrued - other_accrued).abs() <= 1,
        "half the shares carry half the yield: {user_accrued} vs {other_accrued}"
    );
}

#[test]
fn a_direct_token_donation_cannot_move_the_exchange_rate() {
    let mut market = blend_market();

    market.deposit(USER, 100 * UNIT, 0);
    let rate_before = market.rate();
    let assets_before = market.total_assets();
    let quote_before = market.preview_deposit(10 * UNIT);

    market.donate(DONOR, 900 * UNIT);

    assert_eq!(
        market.rate(),
        rate_before,
        "a 9x donation must not move the rate by one stroop"
    );
    assert_eq!(
        market.total_assets(),
        assets_before,
        "only the supplied position is valued"
    );
    assert_eq!(
        market.preview_deposit(10 * UNIT),
        quote_before,
        "and the next depositor is quoted exactly what they were before"
    );

    assert_eq!(
        market.coins.balance(STRATEGY),
        900 * UNIT
    );
}

#[test]
fn a_donation_cannot_release_the_tokenizers_pt_reservation() {
    let mut market = blend_market();
    let mut t = terms();

    let sy_held = market.deposit(USER, 100 * UNIT, 0);
    market.split(&mut t, USER, sy_held);

    market.source.pool.b_rate = 1_100_000_000_000;
    let rate_before = market.rate();
    let claimable_before = market.owed(&t, USER);
    assert!(claimable_before > 0);

    market.donate(DONOR, 900 * UNIT);

    assert_eq!(market.rate(), rate_before, "the rate holds");
    assert_eq!(
        market.owed(&t, USER),
        claimable_before,
        "so the PT reservation holds, and no escrow is released to YT"
    );
    assert_eq!(
        market.claim(&mut t, USER),
        claimable_before,
        "and the settled claim is the honest one, not an inflated one"
    );
}

#[test]
fn the_first_depositor_inflation_exploit_loses_money() {
    let mut market = blend_market();

    let attacker_start = market.coins.balance(ATTACKER);
    let victim_start = market.coins.balance(VICTIM);

    let attacker_shares = market.deposit(ATTACKER, 1_001, 0);
    assert_eq!(attacker_shares, 1, "1001 in, 1000 locked, 1 share out");

    market.donate(ATTACKER, 4_999_999_999);
    assert_eq!(
        market.rate(),
        WAD,
        "the rate is still 1.0 - this is the step the exploit depended on"
    );

    let victim_shares = market.deposit(VICTIM, 9_999_999_999, 0);
    assert_eq!(
        victim_shares, 9_999_999_999,
        "the victim's shares are priced at 1.0, not at a poisoned 5e27"
    );

    let victim_out = market.redeem(VICTIM, victim_shares, 0);
    assert_eq!(victim_out, 9_999_999_999);
    assert_eq!(
        market.coins.balance(VICTIM),
        victim_start,
        "the victim is exactly whole"
    );

    market.redeem(ATTACKER, attacker_shares, 0);
    let attacker_net = market.coins.balance(ATTACKER) - attacker_start;
    assert!(attacker_net < 0, "the attack must not pay: {attacker_net}");
    assert!(
        attacker_net < -(4_900_000_000_i128),
        "the attacker forfeits essentially the whole donation: {attacker_net}"
    );
}

#[test]
fn minimum_shares_defeat_inflation_even_behind_a_donation_counting_strategy() {
    let mut market = mock_market();

    let attacker_start = market.coins.balance(ATTACKER);

    let attacker_shares = market.deposit(ATTACKER, 1_001, 0);
    assert_eq!(attacker_shares, 1);

    market.donate(ATTACKER, 4_999_999_999);
    assert!(
        market.rate() > WAD * 1_000_000,
        "the hostile strategy counts the donation"
    );

    let victim_shares = market.deposit(VICTIM, 9_999_999_999, 0);
    let victim_value = market.try_preview_redeem(victim_shares).unwrap();

    market.redeem(ATTACKER, attacker_shares, 0);
    let attacker_net = market.coins.balance(ATTACKER) - attacker_start;

    assert!(
        attacker_net < 0,
        "the attacker must not profit even against an inflatable strategy: {attacker_net}"
    );
    assert!(
        victim_value > 9_000_000_000,
        "and the victim keeps the bulk of their deposit: {victim_value}"
    );
}

#[test]
fn the_first_deposit_locks_a_minimum_share_balance_forever() {
    let mut market = blend_market();

    assert_eq!(
        market.preview_deposit(100 * UNIT),
        100 * UNIT - MINIMUM_SHARES,
        "the opening quote is what the depositor receives, not what is minted"
    );
    let opening = market.deposit(USER, 100 * UNIT, 0);

    assert_eq!(opening, 100 * UNIT - MINIMUM_SHARES);
    assert_eq!(
        market.vault.total_supply(),
        100 * UNIT,
        "the locked shares are minted, so the rate is unaffected"
    );
    assert_eq!(
        market.vault.total_supply() - market.vault.balance(USER),
        MINIMUM_SHARES,
        "and they belong to no address at all"
    );
    assert_eq!(market.rate(), WAD);

    assert_eq!(market.preview_deposit(50 * UNIT), 50 * UNIT);
    assert_eq!(market.deposit(USER, 50 * UNIT, 0), 50 * UNIT);
}

#[test]
fn a_first_deposit_too_small_to_fund_the_lock_is_rejected() {
    let mut market = blend_market();

    for amount in [1_i128, MINIMUM_SHARES - 1, MINIMUM_SHARES] {
        assert_eq!(
            market.try_deposit(USER, amount, 0),
            Err(Refusal::Vault(VaultError::InitialDepositTooSmall)),
            "an opening deposit of {amount} cannot fund the lock"
        );
    }
    assert_eq!(market.vault.total_supply(), 0, "and nothing was minted");

    assert_eq!(
        market.deposit(USER, MINIMUM_SHARES + 1, 0),
        1
    );
    assert_eq!(market.vault.total_supply(), MINIMUM_SHARES + 1);
}

#[test]
fn preview_deposit_refuses_exactly_where_deposit_refuses() {
    let mut market = blend_market();

    for amount in [1_i128, MINIMUM_SHARES - 1, MINIMUM_SHARES] {
        assert_eq!(
            market.try_preview_deposit(amount),
            Err(VaultError::InitialDepositTooSmall),
            "preview_deposit({amount}) on an empty market must refuse like deposit"
        );
    }
    for amount in [0_i128, -5] {
        assert_eq!(
            market.try_preview_deposit(amount),
            Err(VaultError::InvalidAmount),
            "preview_deposit({amount}) must refuse as InvalidAmount"
        );
        assert_eq!(
            market.try_deposit(USER, amount, 0),
            Err(Refusal::Vault(VaultError::InvalidAmount)),
            "and deposit({amount}) agrees"
        );
    }

    for amount in [0_i128, -5] {
        assert_eq!(
            market.try_preview_redeem(amount),
            Err(VaultError::InvalidAmount),
            "preview_redeem({amount}) must refuse like redeem"
        );
    }

    market.deposit(USER, 100 * UNIT, 0);
    assert!(market.preview_deposit(10 * UNIT) > 0);
    for amount in [0_i128, -5] {
        assert_eq!(
            market.try_preview_deposit(amount),
            Err(VaultError::InvalidAmount),
            "preview_deposit({amount}) on an open market must refuse too"
        );
    }

    let assets = market.total_assets();
    market.vault.set_deposit_cap(ADMIN, assets).unwrap();
    assert_eq!(
        market.try_preview_deposit(10 * UNIT),
        Err(VaultError::DepositCapExceeded),
        "a capped market must not quote a deposit it will reject"
    );
    assert_eq!(
        market.try_deposit(USER, 10 * UNIT, 0),
        Err(Refusal::Vault(VaultError::DepositCapExceeded)),
        "and deposit agrees"
    );
}

#[test]
fn the_supply_never_returns_to_zero_so_residual_assets_are_never_regifted() {
    let mut market = blend_market();

    let held = market.deposit(USER, 100 * UNIT, 0);
    market.redeem(USER, held, 0);

    assert_eq!(market.vault.balance(USER), 0, "the holder is out");
    assert_eq!(
        market.vault.total_supply(),
        MINIMUM_SHARES,
        "but the supply floors at the lock rather than emptying"
    );
    assert_eq!(
        market.total_assets(),
        MINIMUM_SHARES,
        "and the residual position is exactly what the locked shares back"
    );
    assert_eq!(market.rate(), WAD);

    assert_eq!(market.deposit(LATECOMER, 1, 0), 1);
    assert_eq!(market.try_preview_redeem(1).unwrap(), 1);
    assert_eq!(market.vault.total_supply(), MINIMUM_SHARES + 1);
}

#[test]
fn a_vault_with_assets_and_no_shares_fails_closed() {
    let mut market = mock_market();

    assert_eq!(
        market.rate(),
        WAD,
        "an empty market bootstraps at 1.0"
    );

    market.donate(DONOR, 50 * UNIT);

    assert!(
        market.try_rate().is_err(),
        "assets with no supply have no asset-per-share, and WAD is not an answer"
    );
    assert!(market.try_deposit(USER, 10 * UNIT, 0).is_err());

    market.source.exclude_idle = true;
    assert_eq!(market.rate(), WAD);
    assert_eq!(
        market.deposit(USER, 10 * UNIT, 0),
        10 * UNIT - MINIMUM_SHARES
    );
}

#[test]
fn withdraw_pays_from_idle_before_it_touches_the_pool() {
    let mut market = blend_market();

    market.deposit(USER, 100 * UNIT, 0);
    market.donate(DONOR, 20 * UNIT);

    market.drain(100 * UNIT);

    assert_eq!(
        market.total_assets(),
        100 * UNIT,
        "the donation is still not valued"
    );
    assert_eq!(
        market.max_withdraw(),
        20 * UNIT,
        "but it is realizable, and that is now the honest report"
    );

    let start = market.coins.balance(USER);
    let out = market.redeem(USER, 20 * UNIT, 20 * UNIT);
    assert_eq!(out, 20 * UNIT, "and withdraw actually delivers it");
    assert_eq!(market.coins.balance(USER), start + 20 * UNIT);
    assert_eq!(market.total_assets(), 80 * UNIT);
    assert_eq!(
        market.rate(),
        WAD,
        "spending donated idle must not raise the rate"
    );
    market.source.pool.b_rate = 1_100_000_000_000;
    assert_eq!(
        market.rate(),
        1_100_000_000_000_000_000,
        "the excluded position units must keep their future interest out too"
    );
    assert_eq!(
        market.coins.balance(STRATEGY),
        0,
        "the idle balance is spent, not stranded"
    );
}

#[test]
fn max_withdraw_is_exactly_what_a_mixed_idle_and_pool_withdrawal_delivers() {
    let mut market = blend_market();

    market.deposit(USER, 100 * UNIT, 0);
    market.donate(DONOR, 20 * UNIT);

    market.drain(90 * UNIT);

    assert_eq!(market.max_withdraw(), 30 * UNIT);

    let quoted = market.max_withdraw();
    let out = market.redeem(USER, 30 * UNIT, 0);
    assert_eq!(out, quoted, "the quote is the delivery");
    assert_eq!(market.total_assets(), 70 * UNIT);
    assert_eq!(
        market.rate(),
        WAD,
        "mixed idle and pool liquidity must reduce backing with supply"
    );
}

#[test]
fn a_short_delivery_at_min_zero_burns_only_the_sy_it_paid_for() {
    let mut market = mock_market();

    let held = market.deposit(USER, 100 * UNIT, 0);
    market.source.liquidity_cap = Some(50 * UNIT);

    let rate_before = market.rate();
    let out = market.redeem(USER, 60 * UNIT, 0);

    assert_eq!(out, 50 * UNIT, "only 50 was realizable");
    assert_eq!(
        market.vault.balance(USER),
        held - 50 * UNIT,
        "60 SY was requested; the 10 the strategy could not pay for stays put"
    );
    assert_eq!(
        market.vault.total_supply(),
        100 * UNIT - 50 * UNIT,
        "and the unburned 10 is not silently removed from the supply either"
    );
    assert_eq!(
        market.rate(),
        rate_before,
        "a short fill must not reprice the holders who stayed"
    );
}

#[test]
fn the_partial_fill_burn_rounds_toward_the_vault() {
    let mut market = mock_market();

    let held = market.deposit(USER, 100 * UNIT, 0);
    market.donate(DONOR, 10 * UNIT);
    assert_eq!(market.rate(), 1_100_000_000_000_000_000);

    market.source.liquidity_cap = Some(33_333_334);
    let out = market.redeem(USER, 50 * UNIT, 0);

    assert_eq!(out, 33_333_334);
    assert_eq!(
        held - market.vault.balance(USER),
        30_303_031,
        "ceil, not the 30_303_030 a floor would have burned"
    );
}

#[test]
fn the_deposit_cap_reverts_a_crossing_deposit_and_mints_nothing() {
    let mut market = blend_market();

    assert_eq!(market.vault.deposit_cap().unwrap(), 0, "uncapped until an admin says so");
    market.vault.set_deposit_cap(ADMIN, 100 * UNIT).unwrap();
    assert_eq!(market.vault.deposit_cap().unwrap(), 100 * UNIT);

    let held = market.deposit(USER, 100 * UNIT, 0);
    assert_eq!(market.total_assets(), 100 * UNIT);

    let supply = market.vault.total_supply();
    assert_eq!(
        market.try_deposit(USER, 1, 0),
        Err(Refusal::Vault(VaultError::DepositCapExceeded)),
        "one stroop over the cap must revert"
    );
    assert_eq!(market.vault.total_supply(), supply, "and mint nothing");
    assert_eq!(market.vault.balance(USER), held);
    assert_eq!(market.total_assets(), 100 * UNIT, "and move nothing");

    market.vault.set_deposit_cap(ADMIN, 150 * UNIT).unwrap();
    assert_eq!(market.deposit(USER, 50 * UNIT, 0), 50 * UNIT);
    market.vault.set_deposit_cap(ADMIN, 0).unwrap();
    assert_eq!(market.deposit(USER, 500 * UNIT, 0), 500 * UNIT);
}

#[test]
fn the_deposit_cap_is_measured_against_credited_assets_not_the_request() {
    let mut market = mock_market();

    market.vault.set_deposit_cap(ADMIN, 100 * UNIT).unwrap();
    market.source.shave = 5 * UNIT;

    market.deposit(USER, 100 * UNIT, 0);
    assert_eq!(market.total_assets(), 95 * UNIT);
}

#[test]
fn the_deposit_cap_can_never_block_an_exit() {
    let mut market = blend_market();

    let held = market.deposit(USER, 100 * UNIT, 0);
    let start = market.coins.balance(USER);

    market.vault.set_deposit_cap(ADMIN, 1).unwrap();
    assert!(
        market.try_deposit(USER, UNIT, 0).is_err(),
        "deposits are closed"
    );

    assert_eq!(market.rate(), WAD, "the rate is not the cap's");
    market.vault.transfer(USER, OTHER, 10 * UNIT).unwrap();
    market.vault.transfer(OTHER, USER, 10 * UNIT).unwrap();

    let out = market.redeem(USER, held, 0);
    assert_eq!(out, held);
    assert_eq!(market.coins.balance(USER), start + held);
    assert_eq!(market.vault.balance(USER), 0);
}

#[test]
fn only_the_admin_can_move_the_deposit_cap() {
    let mut market = blend_market();

    assert_eq!(
        market.vault.set_deposit_cap(STRANGER, 10 * UNIT),
        Err(VaultError::NotAdmin),
        "the cap is the admin's one lever and nobody else's"
    );
    assert_eq!(market.vault.deposit_cap().unwrap(), 0, "and the rejected call changed nothing");

    assert_eq!(
        market.vault.set_deposit_cap(ADMIN, -1),
        Err(VaultError::InvalidAmount)
    );
    assert_eq!(market.vault.deposit_cap().unwrap(), 0);
}

#[test]
fn v1_and_v2_agree_over_identical_blend_state() {
    let mut v1 = wrapped();
    let mut v2 = blend_market();

    let deposit = 137 * UNIT + 3;
    let v1_shares = v1.deposit(USER, deposit);
    let v2_shares = v2.deposit(USER, deposit, 0);
    assert_eq!(
        v2_shares,
        v1_shares - MINIMUM_SHARES,
        "V2's opening deposit locks MINIMUM_SHARES away and pays out the rest"
    );
    assert_eq!(
        v1.sy.total_supply(),
        v2.vault.total_supply(),
        "the locked shares are minted, so the supply -- and the rate -- match"
    );
    assert_eq!(v1.rate(), v2.rate(), "opening rate");

    for b_rate in [
        1_013_700_000_000_i128,
        1_100_000_000_001,
        1_337_000_000_007,
    ] {
        v1.pool.b_rate = b_rate;
        v2.source.pool.b_rate = b_rate;
        assert_eq!(v1.rate(), v2.rate(), "rate must match at b_rate {b_rate}");
    }

    let second = 41 * UNIT + 7;
    assert_eq!(
        v1.deposit(USER, second),
        v2.deposit(USER, second, 0),
        "second-deposit shares must match at a non-unit rate"
    );

    let redeem = 60 * UNIT + 11;
    assert_eq!(
        v1.redeem(USER, redeem),
        v2.redeem(USER, redeem, 0),
        "redemption underlying must match"
    );
    assert_eq!(v1.rate(), v2.rate(), "post-redeem rate");
    assert_eq!(
        v1.sy.total_supply(),
        v2.vault.total_supply(),
        "post-redeem supply must match"
    );
}

#[test]
fn v2_reserve_reindex_traps_and_recovers_like_v1() {
    let mut market = blend_market();
    market.deposit(USER, 100 * UNIT, 0);

    market.reindex();
    assert_eq!(
        market.try_rate(),
        Err(Refusal::Strategy(StrategyError::UpstreamMismatch)),
        "valuing the wrong reserve must fail closed"
    );

    assert_eq!(market.source.migrate(ADMIN), Ok(1));
    assert_eq!(market.source.core.config().unwrap().reserve_index, 1);
    assert_eq!(
        market.rate(),
        WAD,
        "the market resumes at the same rate once re-synced"
    );
}

#[test]
fn reserve_migration_rejects_a_non_admin() {
    let mut market = blend_market();
    market.reindex();
    assert!(
        market.source.migrate(STRANGER).is_err(),
        "only the strategy admin may re-sync the reserve index"
    );
    assert_eq!(market.source.core.config().unwrap().reserve_index, 0);
}

#[test]
fn tokenizer_pt_and_yt_run_unchanged_on_a_v2_vault() {
    let mut market = blend_market();
    let mut t = terms();

    let sy_held = market.deposit(USER, 100 * UNIT, 0);
    let (pt_out, yt_out) = market.split(&mut t, USER, sy_held);
    assert_eq!(pt_out, sy_held, "at rate 1.0, SY splits one-for-one into face");
    assert_eq!(yt_out, sy_held);

    market.source.pool.b_rate = 1_100_000_000_000;
    assert_eq!(market.rate(), 1_100_000_000_000_000_000);
    let claimable = market.owed(&t, USER);
    assert!(claimable > 0, "YT must accrue the upstream yield: {claimable}");

    let claimed = market.claim(&mut t, USER);
    assert_eq!(claimed, claimable, "preview must match the settled claim");

    t.now = MATURITY + 1;
    t.tokenizer.freeze_maturity_rate(t.now, market.rate()).unwrap();
    let redeemed = market.redeem_at_maturity(&mut t, USER, sy_held);
    assert!(
        redeemed > 0,
        "PT must redeem against the frozen maturity rate: {redeemed}"
    );
    assert_eq!(t.pt.balance(USER), 0);
}

#[test]
fn a_liquidity_shortfall_is_visible_without_freezing_redemption() {
    let mut market = blend_market();
    market.deposit(USER, 100 * UNIT, 0);

    market.drain(80 * UNIT);

    assert_eq!(market.total_assets(), 100 * UNIT);
    assert_eq!(market.max_withdraw(), 20 * UNIT);
    assert!(market.max_withdraw() < market.total_assets());

    let out = market.redeem(USER, 20 * UNIT, 20 * UNIT);
    assert_eq!(out, 20 * UNIT);
    assert_eq!(market.rate(), WAD, "the rate never moved");
}

#[test]
fn a_failed_upstream_withdrawal_surfaces_as_a_typed_error() {
    let mut market = blend_market();
    let held = market.deposit(USER, 100 * UNIT, 0);

    market.source.pool.fail_withdraw = true;
    assert!(
        market.try_redeem(USER, 10 * UNIT, 0).is_err(),
        "a pool failure must not consume the holder's SY"
    );
    assert_eq!(market.vault.balance(USER), held);

    market.source.pool.fail_withdraw = false;
    assert_eq!(market.redeem(USER, 10 * UNIT, 0), 10 * UNIT);
}

#[test]
fn vault_errors_are_typed_not_raw_panics() {
    let mut market = mock_market();

    assert_eq!(
        market.try_deposit(USER, 0, 0),
        Err(Refusal::Vault(VaultError::InvalidAmount))
    );
    assert_eq!(
        market.try_redeem(USER, -1, 0),
        Err(Refusal::Vault(VaultError::InvalidAmount))
    );
    market.deposit(USER, 10 * UNIT, 0);
    assert_eq!(
        market.try_redeem(USER, 11 * UNIT, 0),
        Err(Refusal::Vault(VaultError::InsufficientBalance))
    );
}

#[test]
fn a_whole_redemption_is_its_two_halves() {
    let mut market = blend_market();
    market.deposit(USER, 100 * UNIT, 0);
    market.source.pool.b_rate = 1_100_000_000_000;
    let assets = market.total_assets();
    for delivered in [55 * UNIT, 33_333_334] {
        let delivery = Delivery {
            reported: delivered,
            before: 7,
            after: 7 + delivered,
        };
        let mut at_once = market.vault.clone();
        let whole = at_once.redeem(USER, 50 * UNIT, 0, assets, &delivery).unwrap();
        let mut in_steps = market.vault.clone();
        let redemption = in_steps.begin_redeem(USER, 50 * UNIT, 0, assets).unwrap();
        assert_eq!(redemption.requested, 55 * UNIT);
        assert_eq!(
            in_steps.balance(USER),
            market.vault.balance(USER) - 50 * UNIT,
            "the shares are gone before the strategy is asked"
        );
        let stepped = in_steps.finish_redeem(&redemption, 0, &delivery).unwrap();
        assert_eq!(whole, stepped);
        assert_eq!(whole.underlying_out, delivered);
        assert_eq!(at_once.balance(USER), in_steps.balance(USER));
        assert_eq!(at_once.total_supply(), in_steps.total_supply());
        assert_eq!(
            at_once.accrued_yield(USER, assets),
            in_steps.accrued_yield(USER, assets)
        );
    }
}

#[test]
fn a_deposit_reports_what_it_did() {
    let mut market = mock_market();
    market.source.shave = UNIT;
    let deposited = market.enter(USER, 100 * UNIT, 0).unwrap();
    assert_eq!(
        deposited,
        Deposited {
            from: USER,
            underlying_in: 100 * UNIT,
            assets_credited: 99 * UNIT,
            sy_out: 99 * UNIT - MINIMUM_SHARES,
            rate: WAD,
        }
    );
    let capped = market.vault.set_deposit_cap(ADMIN, 5).unwrap();
    assert_eq!((capped.old_cap, capped.new_cap), (0, 5));
}

#[test]
fn an_untouched_vault_refuses_everything_but_reads() {
    let mut vault = SyVaultV2::new();
    assert_eq!(vault.config(), Err(VaultError::NotInitialized));
    assert_eq!(vault.strategy(), Err(VaultError::NotInitialized));
    assert_eq!(vault.underlying(), Err(VaultError::NotInitialized));
    assert_eq!(vault.deposit_cap(), Err(VaultError::NotInitialized));
    assert_eq!(vault.share_balance(USER), Err(VaultError::NotInitialized));
    assert_eq!(vault.total_shares(), Err(VaultError::NotInitialized));
    assert_eq!(
        vault.set_deposit_cap(ADMIN, 1),
        Err(VaultError::NotInitialized)
    );
    assert_eq!(
        vault.begin_deposit(UNIT, 0, 0),
        Err(VaultError::NotInitialized)
    );
    assert_eq!(
        vault.begin_redeem(USER, UNIT, 0, 0),
        Err(VaultError::NotInitialized)
    );
    assert_eq!(vault.balance(USER), 0);
    assert_eq!(vault.total_supply(), 0);
    assert_eq!(vault.decimals(), 7);
    assert_eq!(vault.name(), "Sidereal Standardized Yield");
    assert_eq!(vault.symbol(), "sSY");
}

#[test]
fn vault_shares_move_by_allowance() {
    let mut market = blend_market();
    market.deposit(USER, 100 * UNIT, 0);
    let vault = &mut market.vault;
    vault.approve(5, USER, OTHER, 10 * UNIT, 9).unwrap();
    assert_eq!(vault.allowance(9, USER, OTHER), 10 * UNIT);
    assert_eq!(vault.allowance(10, USER, OTHER), 0, "an allowance expires");
    assert_eq!(
        vault.transfer_from(9, OTHER, USER, STRANGER, 11 * UNIT),
        Err(VaultError::InsufficientAllowance)
    );
    vault
        .transfer_from(9, OTHER, USER, STRANGER, 4 * UNIT)
        .unwrap();
    assert_eq!(vault.balance(STRANGER), 4 * UNIT);
    assert_eq!(vault.allowance(9, USER, OTHER), 6 * UNIT);
    assert_eq!(
        vault.approve(5, USER, OTHER, 1, 4),
        Err(VaultError::InvalidExpiration)
    );
    assert_eq!(
        vault.approve(5, USER, OTHER, -1, 9),
        Err(VaultError::InvalidAmount)
    );
    assert_eq!(
        vault.transfer(STRANGER, USER, 4 * UNIT + 1),
        Err(VaultError::InsufficientBalance)
    );
}

#[test]
fn vault_arithmetic_and_delivery_are_checked() {
    let mut market = blend_market();
    market.deposit(USER, 100 * UNIT, 0);
    let assets = market.total_assets();
    let vault = &mut market.vault;
    assert_eq!(
        vault.exchange_rate(i128::MAX),
        Err(VaultError::MathOverflow)
    );
    assert_eq!(vault.exchange_rate(0), Err(VaultError::InvalidExchangeRate));
    assert_eq!(
        vault.begin_deposit(UNIT, -1, assets),
        Err(VaultError::InvalidAmount)
    );
    let nothing = Credit {
        assets_credited: 0,
        total_assets: assets,
    };
    assert_eq!(
        vault.deposit(USER, UNIT, 0, assets, nothing),
        Err(VaultError::StrategyDeliveryFailed)
    );
    let late = Delivery {
        reported: 0,
        before: 9,
        after: 9,
    };
    assert_eq!(
        vault.redeem(USER, UNIT, 0, assets, &late),
        Err(VaultError::StrategyDeliveryFailed)
    );
    let short = Delivery {
        reported: UNIT / 2,
        before: 0,
        after: UNIT / 2,
    };
    assert_eq!(
        vault.redeem(USER, UNIT, UNIT, assets, &short),
        Err(VaultError::SlippageExceeded)
    );
    assert_eq!(vault.balance(USER), 100 * UNIT - MINIMUM_SHARES);
}

#[test]
fn idle_is_paid_whatever_the_pool_says() {
    let blend = open_blend(SY);
    let paid = Ok(Withdrawn {
        requested: 3 * UNIT,
        delivered: UNIT,
    });
    let mut supplied = blend.upstream();
    supplied.positions.supply.insert(0, 10 * UNIT);
    supplied.reserve.data.b_rate = 2_000_000_000_000;
    let mut moved = supplied.clone();
    moved.reserve.config.index = 7;
    let mut worthless = supplied.clone();
    worthless.reserve.data.b_rate = 0;
    let mut huge = supplied.clone();
    huge.positions.supply.insert(0, i128::MAX);
    for unpriced in [None, Some(&moved), Some(&worthless), Some(&huge)] {
        let mut core = blend.core;
        assert_eq!(core.withdraw(SY, 3 * UNIT, 0, UNIT, None, unpriced), paid);
        assert_eq!(core.excluded, 0, "what has no price is not left out");
    }
    let mut core = blend.core;
    assert_eq!(core.withdraw(SY, 3 * UNIT, 0, UNIT, None, Some(&supplied)), paid);
    assert_eq!(core.excluded, UNIT / 2);
    let mut core = blend.core;
    let all = i128::MAX / 2;
    assert_eq!(
        core.withdraw(SY, all, 0, all, None, Some(&supplied)),
        Ok(Withdrawn {
            requested: all,
            delivered: all,
        })
    );
    assert_eq!(core.excluded, 10 * UNIT, "no more is left out than counts");
}

#[test]
fn a_strategy_checks_its_caller_and_its_reserve() {
    let blend = open_blend(SY);
    let upstream = blend.upstream();
    let mut core = blend.core;
    assert_eq!(
        core.begin_deposit(SY, 0, &upstream),
        Err(StrategyError::InvalidAmount)
    );
    assert_eq!(
        core.begin_withdraw(STRANGER, UNIT, 0),
        Err(StrategyError::NotVault)
    );
    assert_eq!(
        core.withdraw(SY, UNIT, 0, 0, None, None),
        Err(StrategyError::WithdrawalFailed)
    );
    assert_eq!(
        core.withdraw(SY, UNIT, UNIT, 0, Some(UNIT - 1), None),
        Err(StrategyError::SlippageExceeded)
    );
    assert_eq!(
        core.require_vault(SY, -1),
        Err(StrategyError::InvalidAmount)
    );
    assert_eq!(
        core.deposit(SY, UNIT, &upstream, &upstream),
        Err(StrategyError::UpstreamMismatch),
        "a pool that credits nothing has not taken the deposit"
    );
    assert_eq!(
        StrategyBlend::new().total_assets(&upstream),
        Err(StrategyError::NotInitialized)
    );

    let mut overflowing = upstream.clone();
    overflowing.positions.supply.insert(0, i128::MAX);
    assert_eq!(
        core.total_assets(&overflowing),
        Err(StrategyError::MathOverflow)
    );

    let mut reserve = blend.pool.reserve();
    assert_eq!(
        derive_reserve_index(&vec![OTHER], UNDERLYING, &reserve),
        Err(StrategyError::UpstreamMismatch)
    );
    assert_eq!(
        derive_reserve_index(&vec![OTHER, UNDERLYING], UNDERLYING, &reserve),
        Err(StrategyError::UpstreamMismatch),
        "the reserve and the list must agree on the slot"
    );
    reserve.config.decimals = 18;
    assert_eq!(
        derive_reserve_index(&vec![UNDERLYING], UNDERLYING, &reserve),
        Err(StrategyError::UpstreamMismatch)
    );
    reserve.config.decimals = 7;
    assert_eq!(
        derive_reserve_index(&vec![UNDERLYING], UNDERLYING, &reserve),
        Ok(0)
    );
}

#[test]
fn a_paused_strategy_stops_a_deposit() {
    let mut market = mock_market();
    market.source.paused = true;
    assert_eq!(
        market.try_deposit(USER, UNIT, 0),
        Err(Refusal::Strategy(StrategyError::UpstreamPaused))
    );
    assert_eq!(market.coins.balance(USER), 10_000 * UNIT);
}

#[test]
fn spent_idle_leaves_the_valuation_in_pool_shares() {
    let mut market = blend_market();
    market.source.pool.b_rate = 1_300_000_000_000;
    market.deposit(USER, 130 * UNIT, 0);
    market.donate(DONOR, 10);
    let assets = market.total_assets();
    assert_eq!(market.source.core.excluded, 0);

    market.redeem(USER, 10, 0);
    assert_eq!(
        market.source.core.excluded, 8,
        "ten units at 1.3 are 7.69 pool shares, rounded up"
    );
    assert_eq!(market.total_assets(), (100 * UNIT - 8) * 13 / 10);
    assert!(market.total_assets() <= assets - 10);
    assert_eq!(market.coins.balance(STRATEGY), 0);
    assert_eq!(
        market.source.pool.supplied(STRATEGY),
        100 * UNIT,
        "the pool was not asked"
    );
}

#[test]
fn strategy_and_vault_error_codes_are_stable() {
    let strategy = [
        StrategyError::AlreadyInitialized,
        StrategyError::NotInitialized,
        StrategyError::InvalidAmount,
        StrategyError::NotVault,
        StrategyError::MathOverflow,
        StrategyError::WithdrawalFailed,
        StrategyError::SlippageExceeded,
        StrategyError::UpstreamMismatch,
        StrategyError::UpstreamPaused,
    ];
    for (place, error) in strategy.iter().enumerate() {
        assert_eq!(error.code(), place as u32 + 1);
    }
    let vault = [
        VaultError::AlreadyInitialized,
        VaultError::NotInitialized,
        VaultError::InvalidAmount,
        VaultError::InvalidExchangeRate,
        VaultError::InsufficientBalance,
        VaultError::MathOverflow,
        VaultError::InsufficientAllowance,
        VaultError::InvalidExpiration,
        VaultError::StrategyMismatch,
        VaultError::SlippageExceeded,
        VaultError::StrategyDeliveryFailed,
        VaultError::InitialDepositTooSmall,
        VaultError::DepositCapExceeded,
        VaultError::NotAdmin,
    ];
    for (place, error) in vault.iter().enumerate() {
        assert_eq!(error.code(), place as u32 + 1);
    }
}
