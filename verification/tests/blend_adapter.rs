use sidereal::blend_adapter::{
    assets_from_b_tokens, b_tokens_from_assets, derived_exchange_rate, find_reserve, Holding,
    Positions, Request, Reserve, ReserveConfig, ReserveData, BLEND_SCALAR_12, REQUEST_SUPPLY,
    REQUEST_WITHDRAW, WAD,
};
use std::collections::BTreeMap;

const UNIT: i128 = 10_000_000;

#[test]
fn b_tokens_convert_at_unit_rate_one_to_one() {
    let assets = assets_from_b_tokens(100 * UNIT, BLEND_SCALAR_12).unwrap();
    assert_eq!(assets, 100 * UNIT);
}

#[test]
fn b_tokens_convert_with_accrued_interest() {
    let b_rate = 1_100_000_000_000;
    let assets = assets_from_b_tokens(100 * UNIT, b_rate).unwrap();
    assert_eq!(assets, 110 * UNIT);
}

#[test]
fn derived_rate_reflects_aum_over_supply() {
    let rate = derived_exchange_rate(110 * UNIT, 100 * UNIT).unwrap();
    assert_eq!(rate, 1_100_000_000_000_000_000);
}

#[test]
fn derived_rate_bootstraps_to_wad_when_empty() {
    assert_eq!(derived_exchange_rate(0, 0).unwrap(), WAD);
    assert_eq!(derived_exchange_rate(50 * UNIT, 0).unwrap(), WAD);
}

#[test]
fn derived_rate_is_monotonic_as_interest_accrues() {
    let supply = 100 * UNIT;
    let r0 = derived_exchange_rate(100 * UNIT, supply).unwrap();
    let r1 = derived_exchange_rate(105 * UNIT, supply).unwrap();
    let r2 = derived_exchange_rate(120 * UNIT, supply).unwrap();
    assert_eq!(r0, WAD);
    assert!(r1 > r0 && r2 > r1, "rate must rise with AUM: {r0} {r1} {r2}");
}

#[test]
fn end_to_end_supply_then_accrual() {
    let b_tokens = 100 * UNIT;
    let sy_supply = 100 * UNIT;
    let rate_at_deposit =
        derived_exchange_rate(assets_from_b_tokens(b_tokens, BLEND_SCALAR_12).unwrap(), sy_supply)
            .unwrap();
    assert_eq!(rate_at_deposit, WAD);

    let b_rate_later = 1_050_000_000_000;
    let aum_later = assets_from_b_tokens(b_tokens, b_rate_later).unwrap();
    let rate_later = derived_exchange_rate(aum_later, sy_supply).unwrap();
    assert_eq!(rate_later, 1_050_000_000_000_000_000);
}

#[test]
fn overflow_is_reported_not_panicked() {
    assert_eq!(assets_from_b_tokens(i128::MAX, 2), None);
    assert_eq!(derived_exchange_rate(i128::MAX, 1), None);
}

#[test]
fn b_tokens_from_assets_inverts_the_conversion() {
    assert_eq!(b_tokens_from_assets(100 * UNIT, BLEND_SCALAR_12).unwrap(), 100 * UNIT);
    assert_eq!(b_tokens_from_assets(60 * UNIT, 1_200_000_000_000).unwrap(), 50 * UNIT);
    assert_eq!(b_tokens_from_assets(1, 0), None);
}
#[test]
fn full_accounting_round_trips_and_keeps_rate_honest() {
    let mut b_rate = BLEND_SCALAR_12;
    let mut b_tokens = b_tokens_from_assets(100 * UNIT, b_rate).unwrap();
    let mut sy_supply = 100 * UNIT;
    assert_eq!(b_tokens, 100 * UNIT);
    assert_eq!(
        derived_exchange_rate(assets_from_b_tokens(b_tokens, b_rate).unwrap(), sy_supply).unwrap(),
        WAD
    );
    b_rate = 1_200_000_000_000;
    let aum = assets_from_b_tokens(b_tokens, b_rate).unwrap();
    assert_eq!(aum, 120 * UNIT);
    assert_eq!(derived_exchange_rate(aum, sy_supply).unwrap(), 1_200_000_000_000_000_000);
    let bob_b = b_tokens_from_assets(60 * UNIT, b_rate).unwrap();
    assert_eq!(bob_b, 50 * UNIT);
    b_tokens += bob_b;
    sy_supply += 50 * UNIT;
    let aum = assets_from_b_tokens(b_tokens, b_rate).unwrap();
    assert_eq!(aum, 180 * UNIT);
    assert_eq!(derived_exchange_rate(aum, sy_supply).unwrap(), 1_200_000_000_000_000_000);
    let redeem_sy = 30 * UNIT;
    let underlying_out = redeem_sy * 1_200_000_000_000_000_000 / WAD;
    assert_eq!(underlying_out, 36 * UNIT);
    let burned_b = b_tokens_from_assets(underlying_out, b_rate).unwrap();
    assert_eq!(burned_b, 30 * UNIT);
    b_tokens -= burned_b;
    sy_supply -= redeem_sy;
    let aum = assets_from_b_tokens(b_tokens, b_rate).unwrap();
    assert_eq!(aum, 144 * UNIT);
    assert_eq!(derived_exchange_rate(aum, sy_supply).unwrap(), 1_200_000_000_000_000_000);
}

fn reserve(index: u32, b_rate: i128) -> Reserve {
    Reserve {
        asset: 9,
        config: ReserveConfig {
            c_factor: 0,
            decimals: 7,
            enabled: true,
            index,
            l_factor: 0,
            max_util: 0,
            r_base: 0,
            r_one: 0,
            r_three: 0,
            r_two: 0,
            reactivity: 0,
            supply_cap: i128::MAX,
            util: 0,
        },
        data: ReserveData {
            b_rate,
            b_supply: 0,
            backstop_credit: 0,
            d_rate: BLEND_SCALAR_12,
            d_supply: 0,
            ir_mod: 0,
            last_time: 0,
        },
        scalar: UNIT,
    }
}

#[test]
fn conversions_round_toward_zero() {
    assert_eq!(assets_from_b_tokens(3, 1_500_000_000_000), Some(4));
    assert_eq!(assets_from_b_tokens(-3, 1_500_000_000_000), Some(-4));
    assert_eq!(b_tokens_from_assets(5, 1_500_000_000_000), Some(3));
    assert_eq!(b_tokens_from_assets(5, -1), None);
    assert_eq!(b_tokens_from_assets(i128::MAX, 1), None);
    assert_eq!(derived_exchange_rate(2, 3), Some(666_666_666_666_666_666));
    assert_eq!(derived_exchange_rate(-2, 3), Some(-666_666_666_666_666_666));
    assert_eq!(derived_exchange_rate(7, -1), Some(WAD));
}

#[test]
fn a_reserve_is_found_in_its_first_slot() {
    assert_eq!(find_reserve(&vec![4, 9, 9], 9), Some(1));
    assert_eq!(find_reserve(&vec![4, 9, 9], 4), Some(0));
    assert_eq!(find_reserve(&vec![4, 9, 9], 5), None);
    assert_eq!(find_reserve(&vec![], 5), None);
}

#[test]
fn a_holding_is_read_from_its_slot() {
    let mut supply = BTreeMap::new();
    supply.insert(1u32, 40 * UNIT);
    let positions = Positions {
        collateral: BTreeMap::new(),
        liabilities: BTreeMap::new(),
        supply,
    };
    let held = Holding::read(&positions, &reserve(1, 1_250_000_000_000), 1);
    assert_eq!(held, Holding { b_tokens: 40 * UNIT, b_rate: 1_250_000_000_000 });
    assert_eq!(held.assets(), Some(50 * UNIT));
    let empty = Holding::read(&positions, &reserve(1, 1_250_000_000_000), 0);
    assert_eq!(empty.assets(), Some(0));
}

#[test]
fn only_a_supply_takes_underlying() {
    let supply = Request::supply(9, 5);
    let withdraw = Request::withdraw(9, 5);
    assert_eq!(supply, Request { address: 9, amount: 5, request_type: REQUEST_SUPPLY });
    assert_eq!(withdraw, Request { address: 9, amount: 5, request_type: REQUEST_WITHDRAW });
    assert!(supply.takes_underlying());
    assert!(!withdraw.takes_underlying());
}

#[test]
fn supplying_never_credits_more_than_was_paid() {
    for b_rate in [1, 999_999_999_999, BLEND_SCALAR_12, 1_337_000_000_007, 7 * BLEND_SCALAR_12] {
        for assets in [0, 1, 2, 99, 137 * UNIT + 3] {
            let bought = b_tokens_from_assets(assets, b_rate).unwrap();
            let worth = assets_from_b_tokens(bought, b_rate).unwrap();
            assert!(worth <= assets);
            assert!((assets - worth - 1) * BLEND_SCALAR_12 < b_rate);
        }
    }
}
