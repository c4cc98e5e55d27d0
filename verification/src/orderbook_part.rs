//! Working on a part of an order book: a call needs only the orders it touches
//! and their neighbors, and does to the whole book what it does to that part.

use crate::orderbook::{
    drawn_down, fill_quote, filling, neighbors, placed, pruning, removal, removed, unlinked,
    Book, Closed, Error, FillReceipt, Order, Orderbook, Side,
};
use crate::orderbook_queue::{lemma_close, lemma_fill, lemma_place, well_formed};
use vstd::prelude::*;

verus! {

/// A book with only the orders of `ids` loaded.
pub open spec fn part(book: Book, ids: Set<u64>) -> Book {
    Book { orders: book.orders.restrict(ids), ..book }
}

/// Whether `loaded` is the part of `whole` that `ids` names.
pub open spec fn loads(loaded: Orderbook, whole: Orderbook, ids: Set<u64>) -> bool {
    &&& loaded.settings == whole.settings
    &&& loaded.next_order_id == whole.next_order_id
    &&& loaded.book() == part(whole.book(), ids)
}

/// Whether an order, where there is one, is among `ids`.
pub open spec fn held(ids: Set<u64>, id: Option<u64>) -> bool {
    id matches Some(id) ==> ids.contains(id)
}

/// Whether an order and its neighbors are among `ids`.
pub open spec fn held_linked(book: Book, ids: Set<u64>, id: u64) -> bool {
    &&& ids.contains(id)
    &&& book.orders.contains_key(id) ==> held(ids, book.orders[id].prev) && held(
        ids,
        book.orders[id].next,
    )
}

/// Whether the orders that pruning a side may look at are among `ids`, with
/// their neighbors.
pub open spec fn held_run(book: Book, side: Side, ids: Set<u64>, limit: nat) -> bool
    decreases limit,
{
    if limit == 0 {
        true
    } else {
        match book.head(side) {
            None => true,
            Some(id) => {
                &&& held_linked(book, ids, id)
                &&& book.orders.contains_key(id) ==> (removal(book, book.orders[id]) matches Ok(rest)
                    ==> held_run(rest, side, ids, (limit - 1) as nat))
            },
        }
    }
}

/// Whether every order is stored under its own id.
pub open spec fn filed(book: Book) -> bool {
    forall|id: u64| #[trigger] book.orders.contains_key(id) ==> book.orders[id].id == id
}

proof fn lemma_removal(book: Book, ids: Set<u64>, id: u64)
    requires
        filed(book),
        held_linked(book, ids, id),
        book.orders.contains_key(id),
    ensures
        removal(part(book, ids), book.orders[id]) == (match removal(book, book.orders[id]) {
            Ok(rest) => Ok(part(rest, ids)),
            Err(error) => Err(error),
        }),
        filed(removed(book, book.orders[id])),
{
    let order: Order = book.orders[id];
    let small: Book = part(book, ids);
    if removal(book, order) is Ok {
        let rest: Book = removed(book, order);
        let little: Book = removed(small, order);
        assert(unlinked(small, order).orders =~= unlinked(book, order).orders.restrict(ids));
        assert(little.orders =~= rest.orders.restrict(ids));
        assert(little == part(rest, ids));
    }
    assert forall|other: u64| #[trigger]
        removed(book, order).orders.contains_key(other) implies removed(book, order).orders[other].id
        == other by {
        if book.orders.contains_key(other) {
            assert(book.orders[other].id == other);
        }
    }
}

/// Placing an order needs only the head of the other side, the predecessor and
/// the successor: with these loaded, the placement is accepted or refused as on
/// the whole book, and what it leaves is the same part of what it leaves of the
/// whole, with the new order. A whole book in priority order stays in it.
pub proof fn law_placing_touches_only_neighbors(
    loaded: Orderbook,
    whole: Orderbook,
    ids: Set<u64>,
    now: u64,
    maker: u64,
    side: Side,
    base: i128,
    price: i128,
    expiry: u64,
    predecessor: Option<u64>,
)
    requires
        loads(loaded, whole, ids),
        whole.valid(),
        held(
            ids,
            whole.book().head(
                match side {
                    Side::Ask => Side::Bid,
                    Side::Bid => Side::Ask,
                },
            ),
        ),
        held(ids, predecessor),
        match predecessor {
            None => held(ids, whole.book().head(side)),
            Some(id) => whole.orders@.contains_key(id) ==> held(ids, whole.orders@[id].next),
        },
    ensures
        loaded.placing(now, maker, side, base as int, price as int, expiry, predecessor) == whole.placing(
            now,
            maker,
            side,
            base as int,
            price as int,
            expiry,
            predecessor,
        ),
        whole.placing(now, maker, side, base as int, price as int, expiry, predecessor) matches Ok(order) ==> {
            &&& placed(loaded.book(), order) == part(
                placed(whole.book(), order),
                ids.insert(order.id),
            )
            &&& whole.well_formed() ==> well_formed(
                placed(whole.book(), order),
                (order.id + 1) as u64,
            )
        },
{
    let book: Book = whole.book();
    let small: Book = part(book, ids);
    assert(neighbors(small, side, price as int, predecessor) == neighbors(
        book,
        side,
        price as int,
        predecessor,
    ));
    if whole.placing(now, maker, side, base as int, price as int, expiry, predecessor) is Ok {
        let order: Order = whole.placing(
            now,
            maker,
            side,
            base as int,
            price as int,
            expiry,
            predecessor,
        )->Ok_0;
        assert(placed(small, order).orders =~= placed(book, order).orders.restrict(
            ids.insert(order.id),
        ));
        if whole.well_formed() {
            lemma_place(book, order);
        }
    }
}

/// Closing an order needs only the order and its neighbors: with these loaded, it
/// succeeds or fails as on the whole book, and leaves the same part of what it
/// leaves of the whole. A whole book in priority order stays in it.
pub proof fn law_closing_touches_only_neighbors(
    loaded: Orderbook,
    whole: Orderbook,
    ids: Set<u64>,
    id: u64,
)
    requires
        loads(loaded, whole, ids),
        whole.valid(),
        held_linked(whole.book(), ids, id),
    ensures
        loaded.orders@.contains_key(id) == whole.orders@.contains_key(id),
        whole.orders@.contains_key(id) ==> {
            &&& loaded.orders@[id] == whole.orders@[id]
            &&& removal(loaded.book(), loaded.orders@[id]) == (match removal(
                whole.book(),
                whole.orders@[id],
            ) {
                Ok(rest) => Ok(part(rest, ids)),
                Err(error) => Err(error),
            })
            &&& whole.well_formed() ==> (removal(whole.book(), whole.orders@[id]) matches Ok(rest)
                && well_formed(rest, whole.next_order_id))
        },
{
    if whole.orders@.contains_key(id) {
        lemma_removal(whole.book(), ids, id);
        if whole.well_formed() {
            lemma_close(whole.book(), whole.next_order_id, id);
        }
    }
}

/// Filling the best order needs only that order and its neighbors: with these
/// loaded, it gives the same receipt or the same refusal as on the whole book,
/// and leaves the same part of what it leaves of the whole. A whole book in
/// priority order stays in it.
pub proof fn law_filling_touches_only_neighbors(
    loaded: Orderbook,
    whole: Orderbook,
    ids: Set<u64>,
    now: u64,
    taker: u64,
    side: Side,
    base: int,
    limit: int,
)
    requires
        loads(loaded, whole, ids),
        whole.valid(),
        whole.book().head(side) matches Some(id) ==> held_linked(whole.book(), ids, id),
    ensures
        loaded.best_fill(now, taker, side, base, limit) == (match whole.best_fill(
            now,
            taker,
            side,
            base,
            limit,
        ) {
            Ok((receipt, rest)) => Ok::<(FillReceipt, Book), Error>((receipt, part(rest, ids))),
            Err(error) => Err(error),
        }),
        whole.well_formed() ==> (whole.best_fill(now, taker, side, base, limit) matches Ok((_, rest))
            ==> well_formed(rest, whole.next_order_id)),
{
    let book: Book = whole.book();
    let small: Book = part(book, ids);
    if book.head(side) is Some && book.orders.contains_key(book.head(side)->Some_0) {
        let id: u64 = book.head(side)->Some_0;
        let order: Order = book.orders[id];
        let left: Order = drawn_down(order, base, fill_quote(order, base));
        lemma_removal(book, ids, id);
        assert(small.with_order(left).orders =~= book.with_order(left).orders.restrict(ids));
        assert(small.with_order(left) == part(book.with_order(left), ids));
        if whole.settings is Some {
            let config = whole.settings->Some_0;
            assert(filling(small, config, order, taker, base) == (match filling(
                book,
                config,
                order,
                taker,
                base,
            ) {
                Ok((receipt, rest)) => Ok::<(FillReceipt, Book), Error>((receipt, part(rest, ids))),
                Err(error) => Err(error),
            }));
        }
        if whole.well_formed() {
            lemma_close(book, whole.next_order_id, id);
            lemma_fill(book, whole.next_order_id, id, base, fill_quote(order, base));
        }
    }
}

/// Pruning a side needs only the orders it may look at and their neighbors: with
/// these loaded, it closes the same orders or is refused alike, and leaves the
/// same part of what it leaves of the whole.
pub proof fn law_pruning_touches_only_its_run(
    book: Book,
    ids: Set<u64>,
    side: Side,
    now: u64,
    limit: nat,
)
    requires
        filed(book),
        held_run(book, side, ids, limit),
    ensures
        pruning(part(book, ids), side, now, limit) == (match pruning(book, side, now, limit) {
            Ok((rest, done)) => Ok::<(Book, Seq<Closed>), Error>((part(rest, ids), done)),
            Err(error) => Err(error),
        }),
    decreases limit,
{
    if limit > 0 && book.head(side) is Some {
        let id: u64 = book.head(side)->Some_0;
        if book.orders.contains_key(id) && book.orders[id].expiry <= now {
            lemma_removal(book, ids, id);
            if removal(book, book.orders[id]) is Ok {
                law_pruning_touches_only_its_run(
                    removed(book, book.orders[id]),
                    ids,
                    side,
                    now,
                    (limit - 1) as nat,
                );
            }
        }
    }
}

} // verus!
