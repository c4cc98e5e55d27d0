use sidereal::strategy_interface::{derived_exchange_rate, StrategyError, WAD};

const UNIT: i128 = 10_000_000;

#[test]
fn rate_bootstraps_to_wad_only_when_the_position_is_also_empty() {
    assert_eq!(derived_exchange_rate(0, 0).unwrap(), WAD);
    assert_eq!(derived_exchange_rate(-1, 0).unwrap(), WAD);
}
#[test]
fn assets_with_no_supply_have_no_rate() {
    assert_eq!(derived_exchange_rate(50 * UNIT, 0), None);
    assert_eq!(derived_exchange_rate(1, 0), None);
    assert_eq!(derived_exchange_rate(1, -5), None);
}

#[test]
fn rate_tracks_assets_over_supply() {
    assert_eq!(
        derived_exchange_rate(110 * UNIT, 100 * UNIT).unwrap(),
        1_100_000_000_000_000_000
    );
}

#[test]
fn rate_rises_only_with_assets() {
    let supply = 100 * UNIT;
    let r0 = derived_exchange_rate(100 * UNIT, supply).unwrap();
    let r1 = derived_exchange_rate(105 * UNIT, supply).unwrap();
    assert!(r1 > r0, "rate must rise with assets: {r0} {r1}");
}

#[test]
fn lib_overflow_is_reported_not_panicked() {
    assert_eq!(derived_exchange_rate(i128::MAX, 1), None);
}

#[test]
fn a_rate_rounds_toward_zero() {
    assert_eq!(derived_exchange_rate(2, 3), Some(666_666_666_666_666_666));
    assert_eq!(derived_exchange_rate(-2, 3), Some(-666_666_666_666_666_666));
}

#[test]
fn strategy_errors_have_stable_codes() {
    let all = [
        StrategyError::AlreadyInitialized,
        StrategyError::NotInitialized,
        StrategyError::InvalidAmount,
        StrategyError::NotVault,
        StrategyError::MathOverflow,
        StrategyError::WithdrawalFailed,
        StrategyError::SlippageExceeded,
        StrategyError::UpstreamMismatch,
        StrategyError::UpstreamPaused,
    ];
    for (i, error) in all.iter().enumerate() {
        assert_eq!(error.code(), i as u32 + 1);
    }
}
