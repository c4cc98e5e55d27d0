use sidereal::blend_adapter::{
    Holding, Reserve, ReserveConfig, ReserveData, BLEND_SCALAR_12,
};
use sidereal::ratio::{gcd_i128, mul_div, mul_div_ceil, reduced_product};
use sidereal::sy_wrapper::{Config, Error, Payout, SyWrapper};

const WAD: i128 = 1_000_000_000_000_000_000;
const UNIT: i128 = 10_000_000;
const MINT: i128 = 1_000 * WAD;

const ADMIN: u64 = 1;
const UNDERLYING: u64 = 2;
const POOL: u64 = 3;
const ALICE: u64 = 4;
const BOB: u64 = 5;
const LEDGER: u32 = 0;
const NONE: Holding = Holding {
    b_tokens: 0,
    b_rate: 0,
};

/// A wrapper without a pool, and the underlying it and its user hold.
struct Fixture {
    wrapper: SyWrapper,
    vault: i128,
    alice: i128,
}

fn fixture() -> Fixture {
    Fixture {
        wrapper: SyWrapper::new(),
        vault: 0,
        alice: MINT,
    }
}

fn initialized() -> Fixture {
    let mut f = fixture();
    f.wrapper.initialize(ADMIN, UNDERLYING).unwrap();
    f
}

impl Fixture {
    fn deposit(&mut self, n: i128) -> Result<i128, Error> {
        self.wrapper.begin_deposit(n, &NONE)?;
        let minted = self.wrapper.deposit(ALICE, n, &NONE, &NONE)?;
        self.alice -= n;
        self.vault += n;
        Ok(minted)
    }

    fn redeem(&mut self, n: i128) -> Result<i128, Error> {
        let out = self.wrapper.redeem(ALICE, n, &NONE, None)?;
        self.vault -= out;
        self.alice += out;
        Ok(out)
    }

    fn set_rate(&mut self, rate: i128) {
        self.wrapper.set_exchange_rate(ADMIN, rate).unwrap();
    }
}

#[test]
fn initialize_sets_initial_exchange_rate() {
    let f = initialized();
    assert_eq!(
        f.wrapper.config(),
        Ok(Config {
            admin: ADMIN,
            underlying: UNDERLYING,
            pool: None,
            reserve_index: 0,
        })
    );
    assert_eq!(f.wrapper.exchange_rate(&NONE), Ok(WAD));
    assert_eq!(f.wrapper.total_supply(), 0);
    assert_eq!(f.wrapper.decimals(), 7);
}

#[test]
fn deposit_pulls_underlying_and_mints_shares() {
    let mut f = initialized();

    let minted = f.deposit(100 * WAD).unwrap();

    assert_eq!(minted, 100 * WAD);
    assert_eq!(f.wrapper.balance(ALICE), 100 * WAD);
    assert_eq!(f.wrapper.total_supply(), 100 * WAD);
    assert_eq!(f.vault, 100 * WAD);
    assert_eq!(f.alice, MINT - 100 * WAD);
}

#[test]
fn sy_transfers_move_shares() {
    let mut f = initialized();
    f.deposit(100 * WAD).unwrap();

    f.wrapper.transfer(ALICE, BOB, 40 * WAD).unwrap();
    assert_eq!(f.wrapper.balance(ALICE), 60 * WAD);
    assert_eq!(f.wrapper.balance(BOB), 40 * WAD);
}

#[test]
fn transfer_moves_principal_pro_rata_so_yield_stays_correct() {
    let mut f = initialized();
    f.deposit(100 * WAD).unwrap();

    f.set_rate(1_100_000_000_000_000_000);
    f.wrapper.transfer(ALICE, BOB, 40 * WAD).unwrap();

    assert_eq!(f.wrapper.accrued_yield(ALICE, &NONE), Ok(6 * WAD));
    assert_eq!(f.wrapper.accrued_yield(BOB, &NONE), Ok(4 * WAD));
}

#[test]
fn accrued_yield_tracks_exchange_rate_growth() {
    let mut f = initialized();
    f.deposit(100 * WAD).unwrap();
    f.set_rate(1_050_000_000_000_000_000);

    assert_eq!(f.wrapper.accrued_yield(ALICE, &NONE), Ok(5 * WAD));
}

#[test]
fn redeem_returns_underlying_and_reduces_principal() {
    let mut f = initialized();
    f.deposit(100 * WAD).unwrap();
    f.set_rate(1_100_000_000_000_000_000);

    let underlying_out = f.redeem(40 * WAD).unwrap();

    assert_eq!(underlying_out, 44 * WAD);
    assert_eq!(f.wrapper.balance(ALICE), 60 * WAD);
    assert_eq!(f.wrapper.total_supply(), 60 * WAD);
    assert_eq!(f.wrapper.accrued_yield(ALICE, &NONE), Ok(6 * WAD));
    assert_eq!(f.alice, MINT - 100 * WAD + 44 * WAD);
    assert_eq!(f.vault, 56 * WAD);
}

#[test]
fn deposit_before_initialize_fails() {
    let mut f = fixture();
    let refused = f.deposit(100 * WAD).unwrap_err();
    assert_eq!(refused.code(), 2);
}

#[test]
fn redeem_before_initialize_fails() {
    let mut f = fixture();
    let refused = f.redeem(10 * WAD).unwrap_err();
    assert_eq!(refused.code(), 2);
}

#[test]
fn exchange_rate_before_initialize_fails() {
    let f = fixture();
    let refused = f.wrapper.exchange_rate(&NONE).unwrap_err();
    assert_eq!(refused.code(), 2);
}

#[test]
fn accrued_yield_before_initialize_fails() {
    let f = fixture();
    let refused = f.wrapper.accrued_yield(ALICE, &NONE).unwrap_err();
    assert_eq!(refused.code(), 2);
}

#[test]
fn deposit_share_math_overflow_is_rejected() {
    let mut f = initialized();
    f.set_rate(1);
    let refused = f.deposit(1_000 * WAD).unwrap_err();
    assert_eq!(refused.code(), 6);
    assert_eq!(f.wrapper.total_supply(), 0);
}

#[test]
fn redeem_underlying_math_overflow_is_rejected() {
    let mut f = initialized();
    f.deposit(1_000 * WAD).unwrap();
    f.set_rate(i128::MAX);
    let refused = f.redeem(1_000 * WAD).unwrap_err();
    assert_eq!(refused.code(), 6);
    assert_eq!(f.wrapper.balance(ALICE), 1_000 * WAD);
}

fn reserve(index: u32, decimals: u32, b_rate: i128) -> Reserve {
    Reserve {
        asset: UNDERLYING,
        config: ReserveConfig {
            c_factor: 0,
            decimals,
            enabled: true,
            index,
            l_factor: 0,
            max_util: 0,
            r_base: 0,
            r_one: 0,
            r_three: 0,
            r_two: 0,
            reactivity: 0,
            supply_cap: i128::MAX,
            util: 0,
        },
        data: ReserveData {
            b_rate,
            b_supply: 0,
            backstop_credit: 0,
            d_rate: BLEND_SCALAR_12,
            d_supply: 0,
            ir_mod: 0,
            last_time: 0,
        },
        scalar: UNIT,
    }
}

fn holding(b_tokens: i128, b_rate: i128) -> Holding {
    Holding { b_tokens, b_rate }
}

fn pooled() -> SyWrapper {
    let mut wrapper = SyWrapper::new();
    wrapper
        .initialize_blend(
            ADMIN,
            UNDERLYING,
            POOL,
            &vec![9, UNDERLYING],
            &reserve(1, 7, BLEND_SCALAR_12),
        )
        .unwrap();
    wrapper
}

#[test]
fn a_pool_must_list_the_underlying_where_it_says_it_does() {
    let mut wrapper = SyWrapper::new();
    for (reserves, entry) in [
        (vec![9, 8], reserve(1, 7, WAD)),
        (vec![9, UNDERLYING], reserve(0, 7, WAD)),
        (vec![9, UNDERLYING], reserve(1, 6, WAD)),
        (vec![UNDERLYING, UNDERLYING], reserve(1, 7, WAD)),
    ] {
        assert_eq!(
            wrapper.initialize_blend(ADMIN, UNDERLYING, POOL, &reserves, &entry),
            Err(Error::InvalidBlendReserve)
        );
    }
    assert_eq!(wrapper.config(), Err(Error::NotInitialized));
    let mut wrapper = pooled();
    assert_eq!(
        wrapper.config(),
        Ok(Config {
            admin: ADMIN,
            underlying: UNDERLYING,
            pool: Some(POOL),
            reserve_index: 1,
        })
    );
    assert_eq!(
        wrapper.initialize(ADMIN, UNDERLYING),
        Err(Error::AlreadyInitialized)
    );
    assert_eq!(wrapper.underlying(), Ok(UNDERLYING));
}

#[test]
fn only_the_admin_sets_a_rate_and_never_over_a_pool() {
    let mut f = initialized();
    assert_eq!(
        f.wrapper.set_exchange_rate(BOB, WAD),
        Err(Error::NotInitialized)
    );
    assert_eq!(
        f.wrapper.set_exchange_rate(ADMIN, 0),
        Err(Error::InvalidExchangeRate)
    );
    assert_eq!(f.wrapper.exchange_rate(&NONE), Ok(WAD));
    assert_eq!(
        pooled().set_exchange_rate(ADMIN, WAD),
        Err(Error::ReadOnlyExchangeRate)
    );
    assert_eq!(SyWrapper::require_exchange_rate(-1), Err(Error::InvalidExchangeRate));
    assert_eq!(SyWrapper::require_exchange_rate(1), Ok(()));
    assert_eq!(SyWrapper::require_positive_amount(0), Err(Error::InvalidAmount));
}

#[test]
fn a_pooled_deposit_mints_against_what_the_position_rose_by() {
    let mut wrapper = pooled();
    let empty = holding(0, BLEND_SCALAR_12);
    let first = holding(100 * UNIT, BLEND_SCALAR_12);
    assert_eq!(wrapper.deposit(ALICE, 100 * UNIT, &empty, &first), Ok(100 * UNIT));

    let risen = holding(100 * UNIT, 1_337_000_000_007);
    let rate = wrapper.exchange_rate(&risen).unwrap();
    // The pool credits 41 * UNIT + 7 with the shares it buys, rounded down.
    let bought = (41 * UNIT + 7) * BLEND_SCALAR_12 / 1_337_000_000_007;
    let after = holding(100 * UNIT + bought, 1_337_000_000_007);
    let added = after.assets().unwrap() - risen.assets().unwrap();
    assert!(added < 41 * UNIT + 7);
    let minted = wrapper.deposit(BOB, 41 * UNIT + 7, &risen, &after).unwrap();
    assert_eq!(minted, added * WAD / rate);
    assert!(wrapper.exchange_rate(&after).unwrap() >= rate);

    assert_eq!(
        wrapper.deposit(BOB, 1, &after, &after),
        Err(Error::InvalidAmount),
        "a deposit that added nothing mints nothing"
    );
    assert_eq!(wrapper.deposit(BOB, 0, &after, &after), Err(Error::InvalidAmount));
    assert_eq!(
        wrapper.deposit(BOB, 1, &after, &holding(i128::MAX, 2)),
        Err(Error::MathOverflow)
    );
    assert_eq!(
        wrapper.exchange_rate(&holding(i128::MAX, 2)),
        Err(Error::MathOverflow)
    );
    assert_eq!(
        wrapper.deposit(BOB, 5, &holding(0, 1), &holding(5, BLEND_SCALAR_12)),
        Err(Error::MathOverflow),
        "a position worth nothing has no price"
    );
}

#[test]
fn a_pooled_redemption_burns_for_what_arrived() {
    let mut wrapper = pooled();
    let empty = holding(0, BLEND_SCALAR_12);
    let full = holding(100 * UNIT, BLEND_SCALAR_12);
    wrapper.deposit(ALICE, 100 * UNIT, &empty, &full).unwrap();
    let risen = holding(100 * UNIT, 1_100_000_000_000);

    assert_eq!(wrapper.begin_redeem(ALICE, 50 * UNIT, &risen), Ok(55 * UNIT));
    assert_eq!(
        wrapper.begin_redeem(ALICE, 101 * UNIT, &risen),
        Err(Error::InsufficientBalance)
    );
    // The pool refuses, or pays nothing: nothing is burned.
    assert_eq!(wrapper.redeem(ALICE, 50 * UNIT, &risen, None), Ok(0));
    let nothing = Payout { before: 7, after: 7 };
    assert_eq!(wrapper.redeem(ALICE, 50 * UNIT, &risen, Some(nothing)), Ok(0));
    assert_eq!(wrapper.balance(ALICE), 100 * UNIT);
    // It pays a part: the burn is rounded down from what arrived.
    let part = Payout { before: 7, after: 7 + 33_333_334 };
    assert_eq!(
        wrapper.redeem(ALICE, 50 * UNIT, &risen, Some(part)),
        Ok(33_333_334)
    );
    assert_eq!(wrapper.balance(ALICE), 100 * UNIT - 30_303_030);
    // It pays in full.
    let held = wrapper.balance(ALICE);
    let left = holding(100 * UNIT - 30_303_031, 1_100_000_000_000);
    let owed = wrapper.begin_redeem(ALICE, 50 * UNIT, &left).unwrap();
    let all = Payout { before: 0, after: owed };
    assert_eq!(wrapper.redeem(ALICE, 50 * UNIT, &left, Some(all)), Ok(owed));
    assert_eq!(wrapper.balance(ALICE), held - 50 * UNIT);
    assert_eq!(wrapper.total_supply(), wrapper.balance(ALICE));
    assert_eq!(
        wrapper.redeem(ALICE, UNIT, &risen, Some(Payout { before: i128::MIN, after: 1 })),
        Err(Error::MathOverflow)
    );
}

#[test]
fn wrapper_allowances_gate_transfers() {
    let mut f = initialized();
    f.deposit(100).unwrap();
    f.wrapper.approve(LEDGER, ALICE, BOB, 50, 10).unwrap();
    f.wrapper.transfer_from(LEDGER, BOB, ALICE, BOB, 30).unwrap();
    assert_eq!(f.wrapper.allowance(LEDGER, ALICE, BOB), 20);
    assert_eq!(f.wrapper.balance(BOB), 30);
    assert_eq!(
        f.wrapper.transfer_from(LEDGER, BOB, ALICE, BOB, 21),
        Err(Error::InsufficientAllowance)
    );
    assert_eq!(f.wrapper.allowance(11, ALICE, BOB), 0);
    assert_eq!(
        f.wrapper.approve(5, ALICE, BOB, 1, 4),
        Err(Error::InvalidExpiration)
    );
    assert_eq!(
        f.wrapper.approve(5, ALICE, BOB, -1, 9),
        Err(Error::InvalidAmount)
    );
    assert_eq!(
        f.wrapper.transfer(BOB, ALICE, 31),
        Err(Error::InsufficientBalance)
    );
    assert_eq!(f.wrapper.transfer(BOB, ALICE, 0), Err(Error::InvalidAmount));
    assert_eq!(f.wrapper.share_balance(BOB), Ok(30));
    assert_eq!(f.wrapper.total_shares(), Ok(100));
    assert_eq!(f.wrapper.name(), "Sidereal Standardized Yield");
    assert_eq!(f.wrapper.symbol(), "sSY");
}

#[test]
fn a_transfer_keeps_the_sum_of_principals() {
    let mut f = initialized();
    f.deposit(101).unwrap();
    f.wrapper.transfer(ALICE, BOB, 33).unwrap();
    f.wrapper.transfer(BOB, ALICE, 10).unwrap();
    f.wrapper.transfer(ALICE, ALICE, 5).unwrap();
    let principals = f.wrapper.shares.principals.get(ALICE) + f.wrapper.shares.principals.get(BOB);
    assert_eq!(principals, 101);
    assert_eq!(f.wrapper.balance(ALICE) + f.wrapper.balance(BOB), 101);
}

#[test]
fn a_round_trip_gains_nothing() {
    for rate in [WAD / 3, WAD, 1_337_000_000_000_000_007, 9 * WAD] {
        let mut f = initialized();
        f.set_rate(rate);
        for n in [10, 11, 999_999_937] {
            let minted = f.deposit(n).unwrap();
            assert!(f.redeem(minted).unwrap() <= n);
        }
    }
}

#[test]
fn fractions_are_reduced_before_they_are_multiplied() {
    assert_eq!(gcd_i128(12, 18), 6);
    assert_eq!(gcd_i128(-12, 18), 6);
    assert_eq!(gcd_i128(12, -18), 6);
    assert_eq!(gcd_i128(0, -5), 5);
    assert_eq!(gcd_i128(0, 0), 0);
    assert_eq!(gcd_i128(i128::MIN, 6), 2);
    assert_eq!(reduced_product(12, 35, 90), Some((14, 3)));
    assert_eq!(reduced_product(i128::MIN, 1, -4), Some((i128::MIN / 4, -1)));
    assert_eq!(mul_div(i128::MIN, 1, -4), Some(1 << 125));
    assert_eq!(mul_div(3, 1, i128::MIN), Some(0));
    assert_eq!(mul_div(i128::MAX, i128::MAX, i128::MAX), Some(i128::MAX));
    assert_eq!(mul_div(i128::MAX, 3, 2), None);
    assert_eq!(mul_div(7, 3, 2), Some(10));
    assert_eq!(mul_div(-7, 3, 2), Some(-10));
    assert_eq!(mul_div(7, 3, -2), Some(-10));
    assert_eq!(mul_div(7, 3, 0), None);
    assert_eq!(mul_div_ceil(7, 3, 2), Some(11));
    assert_eq!(mul_div_ceil(8, 3, 2), Some(12));
    assert_eq!(mul_div_ceil(0, 3, 2), Some(0));
    assert_eq!(mul_div_ceil(7, 3, 0), None);
}

#[test]
fn wrapper_error_codes_are_stable() {
    let all = [
        Error::AlreadyInitialized,
        Error::NotInitialized,
        Error::InvalidAmount,
        Error::InvalidExchangeRate,
        Error::InsufficientBalance,
        Error::MathOverflow,
        Error::InsufficientAllowance,
        Error::InvalidExpiration,
        Error::ReadOnlyExchangeRate,
        Error::InvalidBlendReserve,
    ];
    for (i, error) in all.iter().enumerate() {
        assert_eq!(error.code(), i as u32 + 1);
    }
}
