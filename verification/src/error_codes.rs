//! The numbers errors are reported under. They are part of each contract's
//! interface: a client that sees only the number tells the error from it.

use vstd::prelude::*;

verus! {

impl crate::amm::Error {
    pub open spec fn number(self) -> u32 {
        match self {
            crate::amm::Error::AlreadyInitialized => 1,
            crate::amm::Error::NotInitialized => 2,
            crate::amm::Error::InvalidMaturity => 3,
            crate::amm::Error::InvalidAmount => 4,
            crate::amm::Error::InvalidScalarRoot => 5,
            crate::amm::Error::InvalidAnchor => 6,
            crate::amm::Error::InvalidFee => 7,
            crate::amm::Error::InvalidTwapWindow => 8,
            crate::amm::Error::MarketNotSeeded => 9,
            crate::amm::Error::MarketMatured => 10,
            crate::amm::Error::SlippageExceeded => 11,
            crate::amm::Error::InsufficientLiquidity => 12,
            crate::amm::Error::MathOverflow => 13,
            crate::amm::Error::MarketProportionTooHigh => 14,
            crate::amm::Error::ExchangeRateBelowOne => 15,
            crate::amm::Error::UnsupportedRoute => 16,
            crate::amm::Error::TradeNotFound => 17,
            crate::amm::Error::InputOutOfBounds => 18,
            crate::amm::Error::InvalidSyRate => 19,
        }
    }

    pub fn code(&self) -> (code: u32)
        ensures
            code == self.number(),
            1 <= code <= 19,
    {
        match self {
            crate::amm::Error::AlreadyInitialized => 1,
            crate::amm::Error::NotInitialized => 2,
            crate::amm::Error::InvalidMaturity => 3,
            crate::amm::Error::InvalidAmount => 4,
            crate::amm::Error::InvalidScalarRoot => 5,
            crate::amm::Error::InvalidAnchor => 6,
            crate::amm::Error::InvalidFee => 7,
            crate::amm::Error::InvalidTwapWindow => 8,
            crate::amm::Error::MarketNotSeeded => 9,
            crate::amm::Error::MarketMatured => 10,
            crate::amm::Error::SlippageExceeded => 11,
            crate::amm::Error::InsufficientLiquidity => 12,
            crate::amm::Error::MathOverflow => 13,
            crate::amm::Error::MarketProportionTooHigh => 14,
            crate::amm::Error::ExchangeRateBelowOne => 15,
            crate::amm::Error::UnsupportedRoute => 16,
            crate::amm::Error::TradeNotFound => 17,
            crate::amm::Error::InputOutOfBounds => 18,
            crate::amm::Error::InvalidSyRate => 19,
        }
    }
}

/// No two errors share a number.
pub proof fn law_amm_codes_are_distinct(a: crate::amm::Error, b: crate::amm::Error)
    ensures
        a.number() == b.number() ==> a == b,
{
}

impl crate::orderbook::Error {
    pub open spec fn number(self) -> u32 {
        match self {
            crate::orderbook::Error::AlreadyInitialized => 1,
            crate::orderbook::Error::NotInitialized => 2,
            crate::orderbook::Error::InvalidMaturity => 3,
            crate::orderbook::Error::InvalidAmount => 4,
            crate::orderbook::Error::InvalidPrice => 5,
            crate::orderbook::Error::InvalidExpiry => 6,
            crate::orderbook::Error::InvalidFee => 7,
            crate::orderbook::Error::NotAdmin => 8,
            crate::orderbook::Error::OrderNotFound => 9,
            crate::orderbook::Error::NotMaker => 10,
            crate::orderbook::Error::WrongSide => 11,
            crate::orderbook::Error::InvalidPredecessor => 12,
            crate::orderbook::Error::OrderWouldCross => 13,
            crate::orderbook::Error::NotBestOrder => 14,
            crate::orderbook::Error::LimitPriceExceeded => 15,
            crate::orderbook::Error::OrderExpired => 16,
            crate::orderbook::Error::MarketMatured => 17,
            crate::orderbook::Error::MathOverflow => 18,
            crate::orderbook::Error::PageTooLarge => 19,
        }
    }

    pub fn code(&self) -> (code: u32)
        ensures
            code == self.number(),
            1 <= code <= 19,
    {
        match self {
            crate::orderbook::Error::AlreadyInitialized => 1,
            crate::orderbook::Error::NotInitialized => 2,
            crate::orderbook::Error::InvalidMaturity => 3,
            crate::orderbook::Error::InvalidAmount => 4,
            crate::orderbook::Error::InvalidPrice => 5,
            crate::orderbook::Error::InvalidExpiry => 6,
            crate::orderbook::Error::InvalidFee => 7,
            crate::orderbook::Error::NotAdmin => 8,
            crate::orderbook::Error::OrderNotFound => 9,
            crate::orderbook::Error::NotMaker => 10,
            crate::orderbook::Error::WrongSide => 11,
            crate::orderbook::Error::InvalidPredecessor => 12,
            crate::orderbook::Error::OrderWouldCross => 13,
            crate::orderbook::Error::NotBestOrder => 14,
            crate::orderbook::Error::LimitPriceExceeded => 15,
            crate::orderbook::Error::OrderExpired => 16,
            crate::orderbook::Error::MarketMatured => 17,
            crate::orderbook::Error::MathOverflow => 18,
            crate::orderbook::Error::PageTooLarge => 19,
        }
    }
}

/// No two errors share a number.
pub proof fn law_orderbook_codes_are_distinct(
    a: crate::orderbook::Error,
    b: crate::orderbook::Error,
)
    ensures
        a.number() == b.number() ==> a == b,
{
}

impl crate::pt_token::Error {
    pub open spec fn number(self) -> u32 {
        match self {
            crate::pt_token::Error::AlreadyInitialized => 1,
            crate::pt_token::Error::NotInitialized => 2,
            crate::pt_token::Error::InvalidMaturity => 3,
            crate::pt_token::Error::InvalidAmount => 4,
            crate::pt_token::Error::LiveMarket => 5,
            crate::pt_token::Error::InsufficientBalance => 6,
            crate::pt_token::Error::InsufficientAllowance => 7,
            crate::pt_token::Error::MathOverflow => 8,
            crate::pt_token::Error::InvalidExpiration => 9,
        }
    }

    pub fn code(&self) -> (code: u32)
        ensures
            code == self.number(),
            1 <= code <= 9,
    {
        match self {
            crate::pt_token::Error::AlreadyInitialized => 1,
            crate::pt_token::Error::NotInitialized => 2,
            crate::pt_token::Error::InvalidMaturity => 3,
            crate::pt_token::Error::InvalidAmount => 4,
            crate::pt_token::Error::LiveMarket => 5,
            crate::pt_token::Error::InsufficientBalance => 6,
            crate::pt_token::Error::InsufficientAllowance => 7,
            crate::pt_token::Error::MathOverflow => 8,
            crate::pt_token::Error::InvalidExpiration => 9,
        }
    }
}

/// No two errors share a number.
pub proof fn law_pt_token_codes_are_distinct(a: crate::pt_token::Error, b: crate::pt_token::Error)
    ensures
        a.number() == b.number() ==> a == b,
{
}

impl crate::strategy_interface::StrategyError {
    pub open spec fn number(self) -> u32 {
        match self {
            crate::strategy_interface::StrategyError::AlreadyInitialized => 1,
            crate::strategy_interface::StrategyError::NotInitialized => 2,
            crate::strategy_interface::StrategyError::InvalidAmount => 3,
            crate::strategy_interface::StrategyError::NotVault => 4,
            crate::strategy_interface::StrategyError::MathOverflow => 5,
            crate::strategy_interface::StrategyError::WithdrawalFailed => 6,
            crate::strategy_interface::StrategyError::SlippageExceeded => 7,
            crate::strategy_interface::StrategyError::UpstreamMismatch => 8,
            crate::strategy_interface::StrategyError::UpstreamPaused => 9,
        }
    }

    pub fn code(&self) -> (code: u32)
        ensures
            code == self.number(),
            1 <= code <= 9,
    {
        match self {
            crate::strategy_interface::StrategyError::AlreadyInitialized => 1,
            crate::strategy_interface::StrategyError::NotInitialized => 2,
            crate::strategy_interface::StrategyError::InvalidAmount => 3,
            crate::strategy_interface::StrategyError::NotVault => 4,
            crate::strategy_interface::StrategyError::MathOverflow => 5,
            crate::strategy_interface::StrategyError::WithdrawalFailed => 6,
            crate::strategy_interface::StrategyError::SlippageExceeded => 7,
            crate::strategy_interface::StrategyError::UpstreamMismatch => 8,
            crate::strategy_interface::StrategyError::UpstreamPaused => 9,
        }
    }
}

/// No two errors share a number.
pub proof fn law_strategy_interface_codes_are_distinct(
    a: crate::strategy_interface::StrategyError,
    b: crate::strategy_interface::StrategyError,
)
    ensures
        a.number() == b.number() ==> a == b,
{
}

impl crate::sy_vault_v2::Error {
    pub open spec fn number(self) -> u32 {
        match self {
            crate::sy_vault_v2::Error::AlreadyInitialized => 1,
            crate::sy_vault_v2::Error::NotInitialized => 2,
            crate::sy_vault_v2::Error::InvalidAmount => 3,
            crate::sy_vault_v2::Error::InvalidExchangeRate => 4,
            crate::sy_vault_v2::Error::InsufficientBalance => 5,
            crate::sy_vault_v2::Error::MathOverflow => 6,
            crate::sy_vault_v2::Error::InsufficientAllowance => 7,
            crate::sy_vault_v2::Error::InvalidExpiration => 8,
            crate::sy_vault_v2::Error::StrategyMismatch => 9,
            crate::sy_vault_v2::Error::SlippageExceeded => 10,
            crate::sy_vault_v2::Error::StrategyDeliveryFailed => 11,
            crate::sy_vault_v2::Error::InitialDepositTooSmall => 12,
            crate::sy_vault_v2::Error::DepositCapExceeded => 13,
            crate::sy_vault_v2::Error::NotAdmin => 14,
        }
    }

    pub fn code(&self) -> (code: u32)
        ensures
            code == self.number(),
            1 <= code <= 14,
    {
        match self {
            crate::sy_vault_v2::Error::AlreadyInitialized => 1,
            crate::sy_vault_v2::Error::NotInitialized => 2,
            crate::sy_vault_v2::Error::InvalidAmount => 3,
            crate::sy_vault_v2::Error::InvalidExchangeRate => 4,
            crate::sy_vault_v2::Error::InsufficientBalance => 5,
            crate::sy_vault_v2::Error::MathOverflow => 6,
            crate::sy_vault_v2::Error::InsufficientAllowance => 7,
            crate::sy_vault_v2::Error::InvalidExpiration => 8,
            crate::sy_vault_v2::Error::StrategyMismatch => 9,
            crate::sy_vault_v2::Error::SlippageExceeded => 10,
            crate::sy_vault_v2::Error::StrategyDeliveryFailed => 11,
            crate::sy_vault_v2::Error::InitialDepositTooSmall => 12,
            crate::sy_vault_v2::Error::DepositCapExceeded => 13,
            crate::sy_vault_v2::Error::NotAdmin => 14,
        }
    }
}

/// No two errors share a number.
pub proof fn law_sy_vault_v2_codes_are_distinct(
    a: crate::sy_vault_v2::Error,
    b: crate::sy_vault_v2::Error,
)
    ensures
        a.number() == b.number() ==> a == b,
{
}

impl crate::sy_wrapper::Error {
    pub open spec fn number(self) -> u32 {
        match self {
            crate::sy_wrapper::Error::AlreadyInitialized => 1,
            crate::sy_wrapper::Error::NotInitialized => 2,
            crate::sy_wrapper::Error::InvalidAmount => 3,
            crate::sy_wrapper::Error::InvalidExchangeRate => 4,
            crate::sy_wrapper::Error::InsufficientBalance => 5,
            crate::sy_wrapper::Error::MathOverflow => 6,
            crate::sy_wrapper::Error::InsufficientAllowance => 7,
            crate::sy_wrapper::Error::InvalidExpiration => 8,
            crate::sy_wrapper::Error::ReadOnlyExchangeRate => 9,
            crate::sy_wrapper::Error::InvalidBlendReserve => 10,
        }
    }

    pub fn code(&self) -> (code: u32)
        ensures
            code == self.number(),
            1 <= code <= 10,
    {
        match self {
            crate::sy_wrapper::Error::AlreadyInitialized => 1,
            crate::sy_wrapper::Error::NotInitialized => 2,
            crate::sy_wrapper::Error::InvalidAmount => 3,
            crate::sy_wrapper::Error::InvalidExchangeRate => 4,
            crate::sy_wrapper::Error::InsufficientBalance => 5,
            crate::sy_wrapper::Error::MathOverflow => 6,
            crate::sy_wrapper::Error::InsufficientAllowance => 7,
            crate::sy_wrapper::Error::InvalidExpiration => 8,
            crate::sy_wrapper::Error::ReadOnlyExchangeRate => 9,
            crate::sy_wrapper::Error::InvalidBlendReserve => 10,
        }
    }
}

/// No two errors share a number.
pub proof fn law_sy_wrapper_codes_are_distinct(
    a: crate::sy_wrapper::Error,
    b: crate::sy_wrapper::Error,
)
    ensures
        a.number() == b.number() ==> a == b,
{
}

impl crate::tokenizer::Error {
    pub open spec fn number(self) -> u32 {
        match self {
            crate::tokenizer::Error::AlreadyInitialized => 1,
            crate::tokenizer::Error::NotInitialized => 2,
            crate::tokenizer::Error::InvalidMaturity => 3,
            crate::tokenizer::Error::InvalidAmount => 4,
            crate::tokenizer::Error::AmountMismatch => 5,
            crate::tokenizer::Error::Matured => 6,
            crate::tokenizer::Error::MathOverflow => 7,
            crate::tokenizer::Error::LiveMarket => 8,
            crate::tokenizer::Error::Insolvent => 9,
            crate::tokenizer::Error::InvalidFee => 10,
            crate::tokenizer::Error::NotAdmin => 11,
            crate::tokenizer::Error::InvalidFeeRecipient => 12,
        }
    }

    pub fn code(&self) -> (code: u32)
        ensures
            code == self.number(),
            1 <= code <= 12,
    {
        match self {
            crate::tokenizer::Error::AlreadyInitialized => 1,
            crate::tokenizer::Error::NotInitialized => 2,
            crate::tokenizer::Error::InvalidMaturity => 3,
            crate::tokenizer::Error::InvalidAmount => 4,
            crate::tokenizer::Error::AmountMismatch => 5,
            crate::tokenizer::Error::Matured => 6,
            crate::tokenizer::Error::MathOverflow => 7,
            crate::tokenizer::Error::LiveMarket => 8,
            crate::tokenizer::Error::Insolvent => 9,
            crate::tokenizer::Error::InvalidFee => 10,
            crate::tokenizer::Error::NotAdmin => 11,
            crate::tokenizer::Error::InvalidFeeRecipient => 12,
        }
    }
}

/// No two errors share a number.
pub proof fn law_tokenizer_codes_are_distinct(
    a: crate::tokenizer::Error,
    b: crate::tokenizer::Error,
)
    ensures
        a.number() == b.number() ==> a == b,
{
}

impl crate::yt_token::Error {
    pub open spec fn number(self) -> u32 {
        match self {
            crate::yt_token::Error::AlreadyInitialized => 1,
            crate::yt_token::Error::NotInitialized => 2,
            crate::yt_token::Error::InvalidMaturity => 3,
            crate::yt_token::Error::InvalidAmount => 4,
            crate::yt_token::Error::InvalidExchangeRate => 5,
            crate::yt_token::Error::ExchangeRateRegression => 6,
            crate::yt_token::Error::InsufficientBalance => 7,
            crate::yt_token::Error::InsufficientAllowance => 8,
            crate::yt_token::Error::MathOverflow => 9,
            crate::yt_token::Error::InvalidExpiration => 10,
            crate::yt_token::Error::ConsumeExceedsBanked => 11,
        }
    }

    pub fn code(&self) -> (code: u32)
        ensures
            code == self.number(),
            1 <= code <= 11,
    {
        match self {
            crate::yt_token::Error::AlreadyInitialized => 1,
            crate::yt_token::Error::NotInitialized => 2,
            crate::yt_token::Error::InvalidMaturity => 3,
            crate::yt_token::Error::InvalidAmount => 4,
            crate::yt_token::Error::InvalidExchangeRate => 5,
            crate::yt_token::Error::ExchangeRateRegression => 6,
            crate::yt_token::Error::InsufficientBalance => 7,
            crate::yt_token::Error::InsufficientAllowance => 8,
            crate::yt_token::Error::MathOverflow => 9,
            crate::yt_token::Error::InvalidExpiration => 10,
            crate::yt_token::Error::ConsumeExceedsBanked => 11,
        }
    }
}

/// No two errors share a number.
pub proof fn law_yt_token_codes_are_distinct(a: crate::yt_token::Error, b: crate::yt_token::Error)
    ensures
        a.number() == b.number() ==> a == b,
{
}

} // verus!
