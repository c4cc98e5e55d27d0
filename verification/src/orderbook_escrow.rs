//! What the book's escrow has to hold: the sum of what its open orders have left
//! in it. Every operation changes the sum by exactly the transfers it decides
//! on, so an escrow that starts empty always holds what is owed.

use crate::fixed::lemma_floor;
use crate::ledger::{amount, lemma_total_bounds, lemma_total_insert, total};
use crate::orderbook::{
    closed, drawn_down, escrow_change, fee_on, fill_quote, fill_transfers,
    law_bid_escrow_covers_the_rest, law_fill_balances, lemma_quote_order, orders_valid, placed,
    pruning, refund, removal, removed, unlinked, Asset, Book, Closed, Error, Order, Orderbook,
    Party, Side, Transfer, BPS_DENOMINATOR,
};
use vstd::prelude::*;

verus! {

broadcast use vstd::std_specs::btree::group_btree_axioms;

/// The token a side escrows.
pub open spec fn escrowed_in(side: Side) -> Asset {
    match side {
        Side::Ask => Asset::Pt,
        Side::Bid => Asset::Sy,
    }
}

/// What one order has left in the escrow of an asset.
pub open spec fn stake(order: Order, asset: Asset) -> i128 {
    if escrowed_in(order.side) == asset {
        order.escrow_remaining
    } else {
        0
    }
}

/// What every open order has left in the escrow of an asset.
pub open spec fn stakes(orders: Map<u64, Order>, asset: Asset) -> Map<u64, i128> {
    Map::new(|id: u64| orders.contains_key(id), |id: u64| stake(orders[id], asset))
}

/// What the escrow of an asset owes to the open orders, all together.
pub open spec fn owed(book: Book, asset: Asset) -> int {
    total(stakes(book.orders, asset))
}

/// The transfers that the closing of some orders decides on.
pub open spec fn refunds(closings: Seq<Closed>) -> Seq<Transfer> {
    Seq::new(closings.len(), |i: int| closings[i].refund)
}

/// Writing an order changes what is owed by the change to its stake.
proof fn lemma_write(book: Book, order: Order, asset: Asset)
    requires
        book.orders.dom().finite(),
    ensures
        book.with_order(order).orders.dom().finite(),
        owed(book.with_order(order), asset) == owed(book, asset) + stake(order, asset) - (
        if book.orders.contains_key(order.id) {
            stake(book.orders[order.id], asset)
        } else {
            0
        }),
{
    let before = stakes(book.orders, asset);
    let after = stakes(book.with_order(order).orders, asset);
    assert(before.dom() =~= book.orders.dom());
    lemma_total_insert(before, order.id, stake(order, asset));
    assert(after =~= before.insert(order.id, stake(order, asset)));
}

/// Linking an order's neighbors to it, or across it, changes nothing owed.
proof fn lemma_links(
    book: Book,
    prev: Option<u64>,
    next: Option<u64>,
    side: Side,
    p: Option<u64>,
    n: Option<u64>,
    asset: Asset,
)
    requires
        book.orders.dom().finite(),
        orders_valid(book.orders),
        prev matches Some(id) ==> book.orders.contains_key(id),
        next matches Some(id) ==> book.orders.contains_key(id),
    ensures
        ({
            let after_prev = match prev {
                Some(id) => book.with_order(Order { next: n, ..book.orders[id] }),
                None => book.with_head(side, n),
            };
            let after = match next {
                Some(id) => after_prev.with_order(Order { prev: p, ..after_prev.orders[id] }),
                None => after_prev,
            };
            &&& owed(after, asset) == owed(book, asset)
            &&& after.orders.dom() =~= book.orders.dom()
            &&& orders_valid(after.orders)
            &&& forall|id: u64| #[trigger]
                book.orders.contains_key(id) ==> stake(after.orders[id], asset) == stake(
                    book.orders[id],
                    asset,
                )
        }),
{
    let after_prev = match prev {
        Some(id) => book.with_order(Order { next: n, ..book.orders[id] }),
        None => book.with_head(side, n),
    };
    if let Some(id) = prev {
        lemma_write(book, Order { next: n, ..book.orders[id] }, asset);
    }
    assert(after_prev.orders.dom() =~= book.orders.dom());
    assert(orders_valid(after_prev.orders));
    if let Some(id) = next {
        lemma_write(after_prev, Order { prev: p, ..after_prev.orders[id] }, asset);
    }
}

/// Taking an order off the book takes its stake off what is owed.
proof fn lemma_removed(book: Book, order: Order, asset: Asset)
    requires
        book.orders.dom().finite(),
        orders_valid(book.orders),
        book.orders.contains_key(order.id),
        book.orders[order.id] == order,
        removal(book, order) is Ok,
    ensures
        removal(book, order) == Ok::<Book, Error>(removed(book, order)),
        owed(removed(book, order), asset) == owed(book, asset) - stake(order, asset),
        removed(book, order).orders.dom().finite(),
        orders_valid(removed(book, order).orders),
{
    let joined = unlinked(book, order);
    lemma_links(book, order.prev, order.next, order.side, order.prev, order.next, asset);
    let rest = removed(book, order);
    let without = stakes(rest.orders, asset);
    assert(without.dom() =~= rest.orders.dom());
    assert(rest.orders.dom() =~= book.orders.dom().remove(order.id));
    lemma_total_insert(without, order.id, stake(order, asset));
    assert(stakes(joined.orders, asset) =~= without.insert(order.id, stake(order, asset)));
    assert(amount(without, order.id) == 0);
    assert forall|id: u64| #[trigger] rest.orders.contains_key(id) implies rest.orders[id].id == id
        && rest.orders[id].valid() by {
        assert(joined.orders.contains_key(id));
    }
}

/// One transfer changes the escrow of an asset by its amount.
proof fn lemma_one_transfer(transfer: Transfer, asset: Asset)
    ensures
        escrow_change(seq![transfer], asset) == (if transfer.asset != asset {
            0int
        } else if transfer.to == Party::Escrow && transfer.from != Party::Escrow {
            transfer.amount as int
        } else if transfer.from == Party::Escrow && transfer.to != Party::Escrow {
            -transfer.amount
        } else {
            0
        }),
{
    reveal_with_fuel(escrow_change, 2);
    assert(seq![transfer].drop_last().len() == 0);
}

/// A run of transfers changes the escrow by the first and by the rest.
proof fn lemma_transfers_split(first: Transfer, rest: Seq<Transfer>, asset: Asset)
    ensures
        escrow_change(seq![first] + rest, asset) == escrow_change(seq![first], asset)
            + escrow_change(rest, asset),
    decreases rest.len(),
{
    let all = seq![first] + rest;
    if rest.len() == 0 {
        assert(all =~= seq![first]);
    } else {
        lemma_transfers_split(first, rest.drop_last(), asset);
        assert(all.drop_last() =~= seq![first] + rest.drop_last());
        assert(all.last() == rest.last());
    }
}

// ---------------------------------------------------------------------------
// Laws
// ---------------------------------------------------------------------------

/// A placed order is escrowed in full: what is owed rises by exactly what its
/// maker pays in.
pub proof fn law_placement_is_escrowed(
    book: Orderbook,
    now: u64,
    maker: u64,
    side: Side,
    base: int,
    price: int,
    expiry: u64,
    predecessor: Option<u64>,
    asset: Asset,
)
    requires
        book.valid(),
        !book.orders@.contains_key(book.next_order_id),
        book.placing(now, maker, side, base, price, expiry, predecessor) is Ok,
    ensures
        ({
            let order = book.placing(now, maker, side, base, price, expiry, predecessor)->Ok_0;
            let escrow = Transfer {
                asset: escrowed_in(side),
                from: Party::Account(maker),
                to: Party::Escrow,
                amount: order.escrow_remaining,
            };
            owed(placed(book.book(), order), asset) == owed(book.book(), asset) + escrow_change(
                seq![escrow],
                asset,
            )
        }),
{
    let order = book.placing(now, maker, side, base, price, expiry, predecessor)->Ok_0;
    let escrow = Transfer {
        asset: escrowed_in(side),
        from: Party::Account(maker),
        to: Party::Escrow,
        amount: order.escrow_remaining,
    };
    lemma_one_transfer(escrow, asset);
    lemma_links(
        book.book(),
        order.prev,
        order.next,
        side,
        Some(order.id),
        Some(order.id),
        asset,
    );
    let after_prev = match order.prev {
        Some(id) => book.book().with_order(Order { next: Some(order.id), ..book.book().orders[id] }),
        None => book.book().with_head(order.side, Some(order.id)),
    };
    let after_next = match order.next {
        Some(id) => after_prev.with_order(Order { prev: Some(order.id), ..after_prev.orders[id] }),
        None => after_prev,
    };
    lemma_write(after_next, order, asset);
}

/// A closed order gets its whole stake back: what is owed falls by exactly the
/// refund.
pub proof fn law_closing_refunds_the_stake(book: Orderbook, id: u64, asset: Asset)
    requires
        book.valid(),
        book.orders@.contains_key(id),
        removal(book.book(), book.orders@[id]) is Ok,
    ensures
        owed(removal(book.book(), book.orders@[id])->Ok_0, asset) == owed(book.book(), asset)
            + escrow_change(seq![refund(book.orders@[id])], asset),
{
    lemma_removed(book.book(), book.orders@[id], asset);
    lemma_one_transfer(refund(book.orders@[id]), asset);
}

/// Pruning refunds every order it removes, and owes nothing more to them.
pub proof fn law_pruning_refunds_the_stakes(
    book: Orderbook,
    side: Side,
    now: u64,
    limit: nat,
    asset: Asset,
)
    requires
        book.valid(),
        pruning(book.book(), side, now, limit) is Ok,
    ensures
        ({
            let (rest, closings) = pruning(book.book(), side, now, limit)->Ok_0;
            owed(rest, asset) == owed(book.book(), asset) + escrow_change(refunds(closings), asset)
        }),
{
    lemma_pruning(book.book(), side, now, limit, asset);
}

proof fn lemma_pruning(book: Book, side: Side, now: u64, limit: nat, asset: Asset)
    requires
        book.orders.dom().finite(),
        orders_valid(book.orders),
        pruning(book, side, now, limit) is Ok,
    ensures
        ({
            let (rest, closings) = pruning(book, side, now, limit)->Ok_0;
            owed(rest, asset) == owed(book, asset) + escrow_change(refunds(closings), asset)
        }),
    decreases limit,
{
    let (end, closings) = pruning(book, side, now, limit)->Ok_0;
    if limit == 0 || book.head(side) is None || book.orders[book.head(side)->0].expiry > now {
        assert(refunds(closings).len() == 0);
    } else {
        let order = book.orders[book.head(side)->0];
        let rest = removal(book, order)->Ok_0;
        lemma_removed(book, order, asset);
        lemma_pruning(rest, side, now, (limit - 1) as nat, asset);
        let later = pruning(rest, side, now, (limit - 1) as nat)->Ok_0.1;
        assert(closings =~= seq![closed(order, true)] + later);
        assert(refunds(closings) =~= seq![refund(order)] + refunds(later));
        lemma_transfers_split(refund(order), refunds(later), asset);
        lemma_one_transfer(refund(order), asset);
    }
}

/// A fill is paid out of the filled order's own stake: what is owed changes by
/// exactly what the fill's transfers take out of the escrow.
pub proof fn law_fill_is_paid_from_the_stake(
    book: Orderbook,
    now: u64,
    taker: u64,
    side: Side,
    base: int,
    limit: int,
    asset: Asset,
)
    requires
        book.valid(),
        book.best_fill(now, taker, side, base, limit) is Ok,
    ensures
        ({
            let (receipt, rest) = book.best_fill(now, taker, side, base, limit)->Ok_0;
            owed(rest, asset) == owed(book.book(), asset) + escrow_change(
                fill_transfers(book.settings->0, receipt),
                asset,
            )
        }),
{
    let config = book.settings->0;
    let (receipt, rest) = book.best_fill(now, taker, side, base, limit)->Ok_0;
    let order = book.orders@[book.book().head(side)->0];
    let quoted: int = fill_quote(order, base);
    let filled: int = order.original_base - order.remaining_base;
    let price: int = order.price_wad as int;
    lemma_quote_order(filled, filled + base, price);
    lemma_quote_order(filled + base, order.original_base as int, price);
    lemma_quote_order(0, filled, price);
    let fee: int = fee_on(quoted, config.taker_fee_bps as int);
    let n: int = quoted * config.taker_fee_bps;
    assert(0 <= n <= quoted * 1_000) by (nonlinear_arith)
        requires
            n == quoted * config.taker_fee_bps,
            quoted > 0,
            0 <= config.taker_fee_bps <= 1_000,
    ;
    lemma_floor(n, BPS_DENOMINATOR as int);
    assert(0 <= fee < quoted);
    law_fill_balances(config, order, receipt);
    if base == order.remaining_base {
        lemma_removed(book.book(), order, asset);
        if side == Side::Bid {
            law_bid_escrow_covers_the_rest(order);
        }
    } else {
        lemma_write(book.book(), drawn_down(order, base, quoted), asset);
    }
}

/// What is owed is never negative, and no order is owed more than all of it.
pub proof fn law_stakes_are_covered(book: Orderbook, id: u64, asset: Asset)
    requires
        book.valid(),
        book.orders@.contains_key(id),
    ensures
        0 <= stake(book.orders@[id], asset) <= owed(book.book(), asset),
{
    let held = stakes(book.orders@, asset);
    assert(held.dom() =~= book.orders@.dom());
    assert forall|k: u64| #[trigger] held.contains_key(k) implies held[k] >= 0 by {
        assert(book.orders@.contains_key(k));
        if book.orders@[k].side == Side::Bid {
            law_bid_escrow_covers_the_rest(book.orders@[k]);
        }
    }
    lemma_total_bounds(held, id, id);
}

} // verus!
