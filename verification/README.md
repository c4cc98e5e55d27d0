# sidereal

Yield tokenization with verified accounting: split a yield-bearing position into a
principal token (PT) and a yield token (YT), trade either, recombine them, or redeem
at maturity. The library is written in [Verus](https://github.com/verus-lang/verus);
every function carries a contract that is proved, and the laws that span several
functions are proof functions named `law_*` beside them.

## Layout

| Path | Contents |
|---|---|
| `src/` | the verified library: all arithmetic, ledgers, queues and decisions |
| `app/` | the Soroban contracts around it: authorization, storage, token calls, events |
| `tests/` | tests that run the library, with the host's 256-bit integers linked |

Inside `src/`:

| Modules | What they hold |
|---|---|
| `fixed`, `ratio`, `wide`, `amm_math`, `log_exp` | division and rounding, products in lowest terms, 256-bit products, fixed-point logarithm and exponential |
| `ledger`, `allowance`, `shares` | balances, spending allowances, shares with the principal paid for them |
| `pt_token`, `yt_token`, `tokenizer`, `solvency` | the two tokens, the market that splits and redeems, and what keeps its escrow sufficient |
| `amm`, `amm_curve`, `amm_trade`, `amm_search`, `amm_swap` | the PT/SY market: its curve, trades, budget searches, swaps and liquidity |
| `orderbook`, `orderbook_queue`, `orderbook_escrow`, `orderbook_part` | limit orders in price-time priority, the escrow behind them, and why a call may load only the orders it touches |
| `blend_adapter`, `sy_wrapper` | a lending pool's position and the SY wrapper over it |
| `strategy_interface`, `strategy_blend`, `sy_vault_v2` | the vault and the strategy it invests through |
| `error_codes` | the numbers that errors go by on the ledger |

## Conventions

Accounts and contracts are numbers, time is in seconds, and whatever is read from
outside (an exchange rate, a balance, a pool's account) is an argument. A function that
refuses returns the error and leaves the state as it was. Effects on other contracts are
returned as plans for the caller to carry out, and what came of them is an argument of
the function that settles them. State is held in structs with public fields, so that a
caller can load only the entries that a call touches.

What is not proved is what the library takes from `soroban-sdk`: the arithmetic of its
256-bit integers, stated in `src/wide.rs`.
