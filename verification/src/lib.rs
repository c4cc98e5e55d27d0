//! Yield-tokenization markets.

pub mod allowance;
pub mod amm;
pub mod amm_curve;
pub mod amm_math;
pub mod amm_search;
pub mod amm_swap;
pub mod amm_trade;
pub mod blend_adapter;
pub mod error_codes;
pub mod fixed;
pub mod ledger;
pub mod log_exp;
pub mod orderbook;
pub mod orderbook_escrow;
pub mod orderbook_part;
pub mod orderbook_queue;
pub mod pt_token;
pub mod ratio;
pub mod shares;
pub mod solvency;
pub mod strategy_blend;
pub mod strategy_interface;
pub mod sy_vault_v2;
pub mod sy_wrapper;
pub mod tokenizer;
pub mod wide;
pub mod yt_token;
