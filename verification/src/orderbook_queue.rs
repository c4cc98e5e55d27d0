//! What the linked lists of an order book stand for: two queues in price-time
//! priority that never cross.

use crate::orderbook::{
    crosses, drawn_down, neighbors, outranks, page, placed, removal, removed, Book, Error, Order,
    Orderbook, Side,
};
use vstd::prelude::*;

verus! {

/// Price-time priority: a better price first, and an earlier order first among
/// equals. Ids are given out in order of placement.
pub open spec fn ranked(side: Side, first: Order, second: Order) -> bool {
    outranks(side, first.price_wad as int, second.price_wad as int, true) || (first.price_wad
        == second.price_wad && first.id < second.id)
}

/// Whether the order at position `i` of a queue is stored and linked to its
/// neighbors.
pub open spec fn linked(orders: Map<u64, Order>, side: Side, queue: Seq<u64>, i: int) -> bool {
    &&& orders.contains_key(queue[i])
    &&& orders[queue[i]].id == queue[i]
    &&& orders[queue[i]].side == side
    &&& orders[queue[i]].prev == (if i == 0 {
        None::<u64>
    } else {
        Some(queue[i - 1])
    })
    &&& orders[queue[i]].next == (if i == queue.len() - 1 {
        None::<u64>
    } else {
        Some(queue[i + 1])
    })
}

/// Whether a side of the book is the list of `queue`, in priority order.
pub open spec fn chained(book: Book, side: Side, queue: Seq<u64>) -> bool {
    &&& queue.no_duplicates()
    &&& book.head(side) == (if queue.len() == 0 {
        None::<u64>
    } else {
        Some(queue[0])
    })
    &&& forall|i: int|
        0 <= i < queue.len() ==> #[trigger] linked(book.orders, side, queue, i)
    &&& forall|i: int, j: int|
        0 <= i < j < queue.len() ==> ranked(
            side,
            book.orders[#[trigger] queue[i]],
            book.orders[#[trigger] queue[j]],
        )
}

/// Whether the book is two queues: every stored order is in the one of its
/// side, the count is right, no id is ahead of the next one, and every bid is
/// below every ask.
pub open spec fn queued(book: Book, next_id: u64, asks: Seq<u64>, bids: Seq<u64>) -> bool {
    &&& chained(book, Side::Ask, asks)
    &&& chained(book, Side::Bid, bids)
    &&& forall|id: u64| #[trigger]
        book.orders.contains_key(id) ==> id < next_id && match book.orders[id].side {
            Side::Ask => asks.contains(id),
            Side::Bid => bids.contains(id),
        }
    &&& book.open == asks.len() + bids.len()
    &&& forall|i: int, j: int|
        0 <= i < asks.len() && 0 <= j < bids.len() ==> book.orders[#[trigger] bids[j]].price_wad
            < book.orders[#[trigger] asks[i]].price_wad
}

/// Whether the book is two uncrossed queues in price-time priority.
pub open spec fn well_formed(book: Book, next_id: u64) -> bool {
    exists|asks: Seq<u64>, bids: Seq<u64>| #[trigger] queued(book, next_id, asks, bids)
}

/// Two orders that rank alike: the fields priority and linking look at.
pub open spec fn same_rank(a: Order, b: Order) -> bool {
    a.id == b.id && a.side == b.side && a.price_wad == b.price_wad
}

// ---------------------------------------------------------------------------
// Placing
// ---------------------------------------------------------------------------

/// Where in its queue a new order goes: after its predecessor, or first.
pub open spec fn slot(queue: Seq<u64>, predecessor: Option<u64>) -> int {
    match predecessor {
        None => 0,
        Some(id) => queue.index_of(id) + 1,
    }
}

proof fn lemma_chain_insert(book: Book, side: Side, queue: Seq<u64>, order: Order)
    requires
        chained(book, side, queue),
        order.side == side,
        !book.orders.contains_key(order.id),
        forall|i: int| 0 <= i < queue.len() ==> #[trigger] queue[i] < order.id,
        order.prev matches Some(id) ==> queue.contains(id),
        neighbors(book, side, order.price_wad as int, order.prev) == Ok::<
            (Option<u64>, Option<u64>),
            Error,
        >((order.prev, order.next)),
    ensures
        ({
            let k = slot(queue, order.prev);
            &&& 0 <= k <= queue.len()
            &&& chained(placed(book, order), side, queue.insert(k, order.id))
        }),
        forall|id: u64|
            book.orders.contains_key(id) ==> {
                &&& #[trigger] placed(book, order).orders.contains_key(id)
                &&& same_rank(placed(book, order).orders[id], book.orders[id])
                &&& !queue.contains(id) ==> placed(book, order).orders[id] == book.orders[id]
            },
        placed(book, order).orders.dom() =~= book.orders.dom().insert(order.id),
        placed(book, order).orders[order.id] == order,
{
    let k: int = slot(queue, order.prev);
    let after: Book = placed(book, order);
    let longer: Seq<u64> = queue.insert(k, order.id);
    if order.prev is Some {
        let p: u64 = order.prev->Some_0;
        let at: int = queue.index_of(p);
        assert(queue[at] == p);
        assert(linked(book.orders, side, queue, at));
    }
    assert(0 <= k <= queue.len());
    assert(order.next == (if k == queue.len() {
        None::<u64>
    } else {
        Some(queue[k])
    }));
    if k < queue.len() {
        assert(linked(book.orders, side, queue, k));
    }
    if k > 0 {
        assert(linked(book.orders, side, queue, k - 1));
        assert(order.prev == Some(queue[k - 1]));
    }
    if 0 < k < queue.len() {
        assert(queue[k - 1] != queue[k]);
    }
    assert forall|id: u64| book.orders.contains_key(id) implies {
        &&& #[trigger] after.orders.contains_key(id)
        &&& same_rank(after.orders[id], book.orders[id])
        &&& !queue.contains(id) ==> after.orders[id] == book.orders[id]
    } by {
        assert(order.prev matches Some(p) ==> queue.contains(p));
        assert(order.next matches Some(n) ==> queue.contains(n)) by {
            if order.next is Some {
                assert(queue[k] == order.next->Some_0);
            }
        }
    }
    assert forall|i: int| 0 <= i < longer.len() implies #[trigger] linked(
        after.orders,
        side,
        longer,
        i,
    ) by {
        if i < k {
            assert(linked(book.orders, side, queue, i));
            assert(longer[i] == queue[i]);
            if i > 0 {
                assert(longer[i - 1] == queue[i - 1]);
            }
            if i + 1 < k {
                assert(longer[i + 1] == queue[i + 1]);
                assert(queue[i] != queue[k - 1]);
                if k < queue.len() {
                    assert(queue[i] != queue[k]);
                }
            } else {
                assert(longer[i + 1] == order.id);
                if k < queue.len() {
                    assert(queue[i] != queue[k]);
                }
            }
        } else if i == k {
            assert(longer[k] == order.id);
            if k > 0 {
                assert(longer[k - 1] == queue[k - 1]);
            }
            if k < queue.len() {
                assert(longer[k + 1] == queue[k]);
            }
        } else {
            assert(linked(book.orders, side, queue, i - 1));
            assert(longer[i] == queue[i - 1]);
            if i - 1 > k {
                assert(longer[i - 1] == queue[i - 2]);
                assert(queue[i - 1] != queue[k]);
                if k > 0 {
                    assert(queue[i - 1] != queue[k - 1]);
                }
            } else {
                assert(longer[i - 1] == order.id);
                if k > 0 {
                    assert(queue[k] != queue[k - 1]);
                }
            }
            if i < queue.len() {
                assert(longer[i + 1] == queue[i]);
            }
        }
    }
    assert(longer.no_duplicates()) by {
        assert forall|i: int, j: int| 0 <= i < longer.len() && 0 <= j < longer.len() && i
            != j implies longer[i] != longer[j] by {
            let a: int = if i < k { i } else { i - 1 };
            let b: int = if j < k { j } else { j - 1 };
            if i == k {
                assert(longer[j] == queue[b]);
                assert(queue[b] < order.id);
            } else if j == k {
                assert(longer[i] == queue[a]);
                assert(queue[a] < order.id);
            } else {
                assert(longer[i] == queue[a] && longer[j] == queue[b] && a != b);
            }
        }
    }
    assert forall|i: int, j: int| 0 <= i < j < longer.len() implies ranked(
        side,
        after.orders[#[trigger] longer[i]],
        after.orders[#[trigger] longer[j]],
    ) by {
        let a: int = if i < k { i } else { i - 1 };
        let b: int = if j < k { j } else { j - 1 };
        if i == k {
            assert(longer[j] == queue[b]);
            assert(linked(book.orders, side, queue, b));
            assert(linked(book.orders, side, queue, k));
            if b > k {
                assert(ranked(side, book.orders[queue[k]], book.orders[queue[b]]));
            }
        } else if j == k {
            assert(longer[i] == queue[a]);
            assert(linked(book.orders, side, queue, a));
            assert(linked(book.orders, side, queue, k - 1));
            assert(queue[a] < order.id && queue[k - 1] < order.id);
            if a < k - 1 {
                assert(ranked(side, book.orders[queue[a]], book.orders[queue[k - 1]]));
            }
        } else {
            assert(longer[i] == queue[a] && longer[j] == queue[b] && a < b);
            assert(linked(book.orders, side, queue, a));
            assert(linked(book.orders, side, queue, b));
            assert(ranked(side, book.orders[queue[a]], book.orders[queue[b]]));
        }
    }
    assert(after.head(side) == Some(longer[0])) by {
        if k > 0 {
            assert(longer[0] == queue[0]);
        }
    }
    assert(after.orders.dom() =~= book.orders.dom().insert(order.id));
}

/// A side whose orders are untouched stays the same list.
proof fn lemma_chain_untouched(book: Book, after: Book, side: Side, queue: Seq<u64>)
    requires
        chained(book, side, queue),
        after.head(side) == book.head(side),
        forall|i: int|
            0 <= i < queue.len() ==> after.orders.contains_key(#[trigger] queue[i])
                && after.orders[queue[i]] == book.orders[queue[i]],
    ensures
        chained(after, side, queue),
{
    assert forall|i: int| 0 <= i < queue.len() implies #[trigger] linked(
        after.orders,
        side,
        queue,
        i,
    ) by {
        assert(linked(book.orders, side, queue, i));
        assert(after.orders.contains_key(queue[i]));
    }
    assert forall|i: int, j: int| 0 <= i < j < queue.len() implies ranked(
        side,
        after.orders[#[trigger] queue[i]],
        after.orders[#[trigger] queue[j]],
    ) by {
        assert(ranked(side, book.orders[queue[i]], book.orders[queue[j]]));
    }
}

/// An order of one side is in no other queue.
proof fn lemma_sides_apart(book: Book, side: Side, other: Side, queue: Seq<u64>, id: u64)
    requires
        chained(book, side, queue),
        book.orders.contains_key(id),
        book.orders[id].side == other,
        side != other,
    ensures
        !queue.contains(id),
{
    if queue.contains(id) {
        let i: int = queue.index_of(id);
        assert(linked(book.orders, side, queue, i));
    }
}

/// An order placed between neighbors that accept it, at a price that does not
/// cross, stands in its side's queue right after the predecessor it named, or
/// first where it named none. The rest of that queue and the whole of the other
/// keep their order, and the book stays two uncrossed queues in priority order.
#[verifier::rlimit(60)]
pub proof fn law_placed_order_follows_its_predecessor(
    book: Book,
    order: Order,
    asks: Seq<u64>,
    bids: Seq<u64>,
)
    requires
        queued(book, order.id, asks, bids),
        order.id < u64::MAX,
        book.open < u64::MAX,
        !crosses(book, order.side, order.price_wad as int),
        neighbors(book, order.side, order.price_wad as int, order.prev) == Ok::<
            (Option<u64>, Option<u64>),
            Error,
        >((order.prev, order.next)),
    ensures
        ({
            let queue = match order.side {
                Side::Ask => asks,
                Side::Bid => bids,
            };
            let k = slot(queue, order.prev);
            let longer = queue.insert(k, order.id);
            &&& 0 <= k <= queue.len()
            &&& match order.prev {
                None => k == 0,
                Some(id) => k > 0 && queue[k - 1] == id,
            }
            &&& match order.side {
                Side::Ask => queued(placed(book, order), (order.id + 1) as u64, longer, bids),
                Side::Bid => queued(placed(book, order), (order.id + 1) as u64, asks, longer),
            }
        }),
{
    let after: Book = placed(book, order);
    let side: Side = order.side;
    let other: Side = if side == Side::Ask {
        Side::Bid
    } else {
        Side::Ask
    };
    let queue: Seq<u64> = if side == Side::Ask {
        asks
    } else {
        bids
    };
    let opposite: Seq<u64> = if side == Side::Ask {
        bids
    } else {
        asks
    };
    assert forall|i: int| 0 <= i < queue.len() implies #[trigger] queue[i] < order.id by {
        assert(linked(book.orders, side, queue, i));
    }
    lemma_chain_insert(book, side, queue, order);
    let k: int = slot(queue, order.prev);
    let longer: Seq<u64> = queue.insert(k, order.id);
    assert forall|i: int| 0 <= i < opposite.len() implies after.orders.contains_key(
        #[trigger] opposite[i],
    ) && after.orders[opposite[i]] == book.orders[opposite[i]] by {
        assert(linked(book.orders, other, opposite, i));
        lemma_sides_apart(book, side, other, queue, opposite[i]);
    }
    assert(after.head(other) == book.head(other));
    lemma_chain_untouched(book, after, other, opposite);
    let new_asks: Seq<u64> = if side == Side::Ask {
        longer
    } else {
        asks
    };
    let new_bids: Seq<u64> = if side == Side::Ask {
        bids
    } else {
        longer
    };
    assert(longer.contains(order.id)) by {
        assert(longer[k] == order.id);
    }
    assert forall|id: u64| queue.contains(id) implies longer.contains(id) by {
        let i: int = queue.index_of(id);
        assert(queue[i] == id);
        if i < k {
            assert(longer[i] == id);
        } else {
            assert(longer[i + 1] == id);
        }
    }
    assert forall|id: u64| #[trigger] after.orders.contains_key(id) implies id < order.id + 1 && match after.orders[id].side {
        Side::Ask => new_asks.contains(id),
        Side::Bid => new_bids.contains(id),
    } by {
        if id != order.id {
            assert(book.orders.contains_key(id));
        }
    }
    // Every order of the new queue stays clear of the opposite side: the new
    // one because it does not cross the best, the others as before.
    assert forall|i: int, j: int| 0 <= i < new_asks.len() && 0 <= j < new_bids.len() implies after.orders[#[trigger] new_bids[j]].price_wad
        < after.orders[#[trigger] new_asks[i]].price_wad by {
        if side == Side::Ask {
            assert(linked(book.orders, Side::Bid, bids, j));
            if i == k {
                assert(linked(book.orders, Side::Bid, bids, 0));
                if j > 0 {
                    assert(ranked(Side::Bid, book.orders[bids[0]], book.orders[bids[j]]));
                }
            } else {
                let a: int = if i < k { i } else { i - 1 };
                assert(longer[i] == asks[a]);
                assert(linked(book.orders, Side::Ask, asks, a));
                assert(book.orders[bids[j]].price_wad < book.orders[asks[a]].price_wad);
            }
        } else {
            assert(linked(book.orders, Side::Ask, asks, i));
            if j == k {
                assert(linked(book.orders, Side::Ask, asks, 0));
                if i > 0 {
                    assert(ranked(Side::Ask, book.orders[asks[0]], book.orders[asks[i]]));
                }
            } else {
                let b: int = if j < k { j } else { j - 1 };
                assert(longer[j] == bids[b]);
                assert(linked(book.orders, Side::Bid, bids, b));
                assert(book.orders[bids[b]].price_wad < book.orders[asks[i]].price_wad);
            }
        }
    }
    assert(queued(after, (order.id + 1) as u64, new_asks, new_bids));
}

/// Placing an order keeps the book well formed.
pub proof fn lemma_place(book: Book, order: Order)
    requires
        well_formed(book, order.id),
        order.id < u64::MAX,
        book.open < u64::MAX,
        !crosses(book, order.side, order.price_wad as int),
        neighbors(book, order.side, order.price_wad as int, order.prev) == Ok::<
            (Option<u64>, Option<u64>),
            Error,
        >((order.prev, order.next)),
    ensures
        well_formed(placed(book, order), (order.id + 1) as u64),
{
    let (asks, bids) = choose|asks: Seq<u64>, bids: Seq<u64>| #[trigger]
        queued(book, order.id, asks, bids);
    law_placed_order_follows_its_predecessor(book, order, asks, bids);
}

// ---------------------------------------------------------------------------
// Removing
// ---------------------------------------------------------------------------

proof fn lemma_chain_remove(book: Book, side: Side, queue: Seq<u64>, k: int)
    requires
        chained(book, side, queue),
        0 <= k < queue.len(),
        book.open > 0,
    ensures
        ({
            let order = book.orders[queue[k]];
            let after = removed(book, order);
            &&& removal(book, order) == Ok::<Book, Error>(after)
            &&& chained(after, side, queue.remove(k))
            &&& after.orders.dom() =~= book.orders.dom().remove(queue[k])
            &&& forall|id: u64|
                book.orders.contains_key(id) && id != queue[k] ==> {
                    &&& #[trigger] after.orders.contains_key(id)
                    &&& same_rank(after.orders[id], book.orders[id])
                    &&& !queue.contains(id) ==> after.orders[id] == book.orders[id]
                }
        }),
{
    let order: Order = book.orders[queue[k]];
    let after: Book = removed(book, order);
    let shorter: Seq<u64> = queue.remove(k);
    assert(linked(book.orders, side, queue, k));
    if k > 0 {
        assert(linked(book.orders, side, queue, k - 1));
        assert(queue[k - 1] != queue[k]);
    }
    if k + 1 < queue.len() {
        assert(linked(book.orders, side, queue, k + 1));
        assert(queue[k + 1] != queue[k]);
        if k > 0 {
            assert(queue[k + 1] != queue[k - 1]);
        }
    }
    assert(order.prev matches Some(p) ==> queue.contains(p)) by {
        if k > 0 {
            assert(queue[k - 1] == order.prev->Some_0);
        }
    }
    assert(order.next matches Some(n) ==> queue.contains(n)) by {
        if k + 1 < queue.len() {
            assert(queue[k + 1] == order.next->Some_0);
        }
    }
    assert(after.orders.dom() =~= book.orders.dom().remove(queue[k]));
    assert forall|i: int| 0 <= i < shorter.len() implies #[trigger] linked(
        after.orders,
        side,
        shorter,
        i,
    ) by {
        let a: int = if i < k { i } else { i + 1 };
        assert(shorter[i] == queue[a]);
        assert(linked(book.orders, side, queue, a));
        assert(queue[a] != queue[k]);
        if i > 0 {
            let b: int = if i - 1 < k { i - 1 } else { i };
            assert(shorter[i - 1] == queue[b]);
        }
        if i + 1 < shorter.len() {
            let c: int = if i + 1 < k { i + 1 } else { i + 2 };
            assert(shorter[i + 1] == queue[c]);
        }
        if k > 0 && a != k - 1 {
            assert(queue[a] != queue[k - 1]);
        }
        if k + 1 < queue.len() && a != k + 1 {
            assert(queue[a] != queue[k + 1]);
        }
    }
    assert(shorter.no_duplicates()) by {
        assert forall|i: int, j: int| 0 <= i < shorter.len() && 0 <= j < shorter.len() && i
            != j implies shorter[i] != shorter[j] by {
            let a: int = if i < k { i } else { i + 1 };
            let b: int = if j < k { j } else { j + 1 };
            assert(shorter[i] == queue[a] && shorter[j] == queue[b] && a != b);
        }
    }
    assert forall|i: int, j: int| 0 <= i < j < shorter.len() implies ranked(
        side,
        after.orders[#[trigger] shorter[i]],
        after.orders[#[trigger] shorter[j]],
    ) by {
        let a: int = if i < k { i } else { i + 1 };
        let b: int = if j < k { j } else { j + 1 };
        assert(shorter[i] == queue[a] && shorter[j] == queue[b]);
        assert(linked(book.orders, side, queue, a));
        assert(linked(book.orders, side, queue, b));
        assert(queue[a] != queue[k] && queue[b] != queue[k]);
        assert(ranked(side, book.orders[queue[a]], book.orders[queue[b]]));
    }
    assert(after.head(side) == (if shorter.len() == 0 {
        None::<u64>
    } else {
        Some(shorter[0])
    })) by {
        if k == 0 && shorter.len() > 0 {
            assert(shorter[0] == queue[1]);
        } else if k > 0 {
            assert(shorter[0] == queue[0]);
        }
    }
}

/// Taking any stored order off a well-formed book succeeds and keeps it well
/// formed.
pub proof fn lemma_close(book: Book, next_id: u64, id: u64)
    requires
        well_formed(book, next_id),
        book.orders.contains_key(id),
    ensures
        removal(book, book.orders[id]) == Ok::<Book, Error>(removed(book, book.orders[id])),
        well_formed(removed(book, book.orders[id]), next_id),
        book.open > 0,
{
    let (asks, bids) = choose|asks: Seq<u64>, bids: Seq<u64>| #[trigger]
        queued(book, next_id, asks, bids);
    let order: Order = book.orders[id];
    let side: Side = order.side;
    let other: Side = if side == Side::Ask {
        Side::Bid
    } else {
        Side::Ask
    };
    let queue: Seq<u64> = if side == Side::Ask {
        asks
    } else {
        bids
    };
    let opposite: Seq<u64> = if side == Side::Ask {
        bids
    } else {
        asks
    };
    assert(queue.contains(id));
    let k: int = queue.index_of(id);
    assert(queue[k] == id);
    lemma_chain_remove(book, side, queue, k);
    let after: Book = removed(book, order);
    let shorter: Seq<u64> = queue.remove(k);
    assert forall|i: int| 0 <= i < opposite.len() implies after.orders.contains_key(
        #[trigger] opposite[i],
    ) && after.orders[opposite[i]] == book.orders[opposite[i]] by {
        assert(linked(book.orders, other, opposite, i));
        lemma_sides_apart(book, side, other, queue, opposite[i]);
    }
    assert(after.head(other) == book.head(other));
    lemma_chain_untouched(book, after, other, opposite);
    let new_asks: Seq<u64> = if side == Side::Ask {
        shorter
    } else {
        asks
    };
    let new_bids: Seq<u64> = if side == Side::Ask {
        bids
    } else {
        shorter
    };
    assert forall|held: u64| queue.contains(held) && held != id implies shorter.contains(held) by {
        let i: int = queue.index_of(held);
        assert(queue[i] == held);
        if i < k {
            assert(shorter[i] == held);
        } else {
            assert(shorter[i - 1] == held);
        }
    }
    assert forall|held: u64| #[trigger] after.orders.contains_key(held) implies held < next_id && match after.orders[held].side {
        Side::Ask => new_asks.contains(held),
        Side::Bid => new_bids.contains(held),
    } by {
        assert(book.orders.contains_key(held));
    }
    assert forall|i: int, j: int| 0 <= i < new_asks.len() && 0 <= j < new_bids.len() implies after.orders[#[trigger] new_bids[j]].price_wad
        < after.orders[#[trigger] new_asks[i]].price_wad by {
        let a: int = if side == Side::Ask && i >= k { i + 1 } else { i };
        let b: int = if side == Side::Bid && j >= k { j + 1 } else { j };
        assert(new_asks[i] == asks[a] && new_bids[j] == bids[b]);
        assert(linked(book.orders, Side::Ask, asks, a));
        assert(linked(book.orders, Side::Bid, bids, b));
        assert(linked(book.orders, side, queue, k));
        assert(queue[if side == Side::Ask { a } else { b }] != queue[k]);
        assert(book.orders[bids[b]].price_wad < book.orders[asks[a]].price_wad);
        assert(asks[a] != id && bids[b] != id);
    }
    assert(queued(after, next_id, new_asks, new_bids));
}

/// Drawing an order down in place keeps the book well formed.
pub proof fn lemma_fill(book: Book, next_id: u64, id: u64, base: int, amount: int)
    requires
        well_formed(book, next_id),
        book.orders.contains_key(id),
        book.orders[id].id == id,
    ensures
        well_formed(book.with_order(drawn_down(book.orders[id], base, amount)), next_id),
{
    let (asks, bids) = choose|asks: Seq<u64>, bids: Seq<u64>| #[trigger]
        queued(book, next_id, asks, bids);
    let after: Book = book.with_order(drawn_down(book.orders[id], base, amount));
    lemma_chain_drawn(book, after, Side::Ask, asks, id);
    lemma_chain_drawn(book, after, Side::Bid, bids, id);
    assert forall|held: u64| #[trigger] after.orders.contains_key(held) implies held < next_id && match after.orders[held].side {
        Side::Ask => asks.contains(held),
        Side::Bid => bids.contains(held),
    } by {
        assert(book.orders.contains_key(held));
    }
    assert forall|i: int, j: int| 0 <= i < asks.len() && 0 <= j < bids.len() implies after.orders[#[trigger] bids[j]].price_wad
        < after.orders[#[trigger] asks[i]].price_wad by {
        assert(book.orders[bids[j]].price_wad < book.orders[asks[i]].price_wad);
    }
    assert(queued(after, next_id, asks, bids));
}

proof fn lemma_chain_drawn(book: Book, after: Book, side: Side, queue: Seq<u64>, id: u64)
    requires
        chained(book, side, queue),
        after.head(side) == book.head(side),
        forall|held: u64|
            #![trigger after.orders[held]]
            book.orders.contains_key(held) ==> after.orders.contains_key(held) && same_rank(
                after.orders[held],
                book.orders[held],
            ) && after.orders[held].prev == book.orders[held].prev && after.orders[held].next
                == book.orders[held].next,
    ensures
        chained(after, side, queue),
{
    assert forall|i: int| 0 <= i < queue.len() implies #[trigger] linked(
        after.orders,
        side,
        queue,
        i,
    ) by {
        assert(linked(book.orders, side, queue, i));
        assert(same_rank(after.orders[queue[i]], book.orders[queue[i]]));
    }
    assert forall|i: int, j: int| 0 <= i < j < queue.len() implies ranked(
        side,
        after.orders[#[trigger] queue[i]],
        after.orders[#[trigger] queue[j]],
    ) by {
        assert(linked(book.orders, side, queue, i));
        assert(linked(book.orders, side, queue, j));
        assert(ranked(side, book.orders[queue[i]], book.orders[queue[j]]));
    }
}

// ---------------------------------------------------------------------------
// Reading
// ---------------------------------------------------------------------------

/// The orders of a queue from a position on, as many as a page holds.
pub open spec fn stretch(book: Book, queue: Seq<u64>, from: int, limit: nat) -> Seq<Order> {
    let held = queue.len() - from;
    let count = if held <= 0 {
        0
    } else if held <= limit {
        held
    } else {
        limit as int
    };
    Seq::new(count as nat, |i: int| book.orders[queue[from + i]])
}

/// A page is a stretch of the queue: the orders come in priority order, none
/// skipped, from the place asked for.
pub proof fn law_page_is_in_priority_order(
    book: Book,
    side: Side,
    queue: Seq<u64>,
    from: int,
    limit: nat,
)
    requires
        chained(book, side, queue),
        0 <= from <= queue.len(),
    ensures
        page(
            book,
            if from == queue.len() {
                None
            } else {
                Some(queue[from])
            },
            limit,
        ) == Ok::<Seq<Order>, Error>(stretch(book, queue, from, limit)),
    decreases limit,
{
    if limit == 0 || from == queue.len() {
        assert(stretch(book, queue, from, limit) =~= Seq::empty());
    } else {
        assert(linked(book.orders, side, queue, from));
        law_page_is_in_priority_order(book, side, queue, from + 1, (limit - 1) as nat);
        assert(stretch(book, queue, from, limit) =~= seq![book.orders[queue[from]]] + stretch(
            book,
            queue,
            from + 1,
            (limit - 1) as nat,
        ));
    }
}

/// The head of a side is its best order: nothing on that side outranks it.
pub proof fn law_head_is_best(book: Book, next_id: u64, side: Side, id: u64)
    requires
        well_formed(book, next_id),
        book.orders.contains_key(id),
        book.orders[id].side == side,
    ensures
        book.head(side) is Some,
        book.orders.contains_key(book.head(side)->Some_0),
        book.head(side)->Some_0 == id || ranked(
            side,
            book.orders[book.head(side)->Some_0],
            book.orders[id],
        ),
{
    let (asks, bids) = choose|asks: Seq<u64>, bids: Seq<u64>| #[trigger]
        queued(book, next_id, asks, bids);
    let queue: Seq<u64> = if side == Side::Ask {
        asks
    } else {
        bids
    };
    assert(queue.contains(id));
    let k: int = queue.index_of(id);
    assert(linked(book.orders, side, queue, 0));
    if k > 0 {
        assert(ranked(side, book.orders[queue[0]], book.orders[queue[k]]));
    }
}

/// Listing a side gives its orders in queue order, none skipped: from the best
/// one, or from the one after the cursor, as many as the limit and the queue
/// have. `at` is the cursor's place, one before the first where there is none.
pub proof fn law_listing_follows_the_queue(
    book: Orderbook,
    asks: Seq<u64>,
    bids: Seq<u64>,
    side: Side,
    at: int,
    limit: nat,
)
    requires
        queued(book.book(), book.next_order_id, asks, bids),
        book.settings is Some,
        1 <= limit <= 50,
        -1 <= at < (match side {
            Side::Ask => asks,
            Side::Bid => bids,
        }).len(),
    ensures
        ({
            let queue = match side {
                Side::Ask => asks,
                Side::Bid => bids,
            };
            let cursor = if at < 0 {
                None
            } else {
                Some(queue[at])
            };
            book.listing(side, cursor, limit) matches Ok(page) && {
                &&& page.len() <= limit
                &&& page.len() <= queue.len() - (at + 1)
                &&& page.len() == limit || page.len() == queue.len() - (at + 1)
                &&& forall|i: int|
                    0 <= i < page.len() ==> #[trigger] page[i] == book.orders@[queue[at + 1 + i]]
            }
        }),
{
    let queue = match side {
        Side::Ask => asks,
        Side::Bid => bids,
    };
    if at >= 0 {
        assert(linked(book.orders@, side, queue, at));
    }
    law_page_is_in_priority_order(book.book(), side, queue, at + 1, limit);
}

/// The head of a side is stored, on that side.
pub proof fn lemma_head_is_stored(book: Book, next_id: u64, side: Side)
    requires
        well_formed(book, next_id),
    ensures
        book.head(side) matches Some(id) ==> book.orders.contains_key(id) && book.orders[id].side
            == side && book.orders[id].id == id,
{
    let (asks, bids) = choose|asks: Seq<u64>, bids: Seq<u64>| #[trigger]
        queued(book, next_id, asks, bids);
    let queue: Seq<u64> = if side == Side::Ask {
        asks
    } else {
        bids
    };
    if queue.len() > 0 {
        assert(linked(book.orders, side, queue, 0));
    }
}

/// A well-formed book is never crossed: every bid is below every ask.
pub proof fn law_book_is_uncrossed(book: Book, next_id: u64, bid: u64, ask: u64)
    requires
        well_formed(book, next_id),
        book.orders.contains_key(bid),
        book.orders.contains_key(ask),
        book.orders[bid].side == Side::Bid,
        book.orders[ask].side == Side::Ask,
    ensures
        book.orders[bid].price_wad < book.orders[ask].price_wad,
{
    let (asks, bids) = choose|asks: Seq<u64>, bids: Seq<u64>| #[trigger]
        queued(book, next_id, asks, bids);
    assert(asks.contains(ask) && bids.contains(bid));
    let i: int = asks.index_of(ask);
    let j: int = bids.index_of(bid);
    assert(asks[i] == ask && bids[j] == bid);
}

/// The open count is the number of orders on the book.
pub proof fn law_open_count_counts(book: Book, next_id: u64)
    requires
        well_formed(book, next_id),
    ensures
        book.orders.dom().finite(),
        book.open == book.orders.dom().len(),
{
    let (asks, bids) = choose|asks: Seq<u64>, bids: Seq<u64>| #[trigger]
        queued(book, next_id, asks, bids);
    let a: Set<u64> = asks.to_set();
    let b: Set<u64> = bids.to_set();
    asks.unique_seq_to_set();
    bids.unique_seq_to_set();
    assert(a.disjoint(b)) by {
        assert forall|id: u64| !(a.contains(id) && b.contains(id)) by {
            if a.contains(id) && b.contains(id) {
                let i: int = asks.index_of(id);
                let j: int = bids.index_of(id);
                assert(asks[i] == id && bids[j] == id);
                assert(linked(book.orders, Side::Ask, asks, i));
                assert(linked(book.orders, Side::Bid, bids, j));
            }
        }
    }
    vstd::set_lib::lemma_set_disjoint_lens(a, b);
    assert(a.union(b) =~= book.orders.dom()) by {
        assert forall|id: u64| a.union(b).contains(id) <==> book.orders.dom().contains(id) by {
            if a.contains(id) {
                let i: int = asks.index_of(id);
                assert(asks[i] == id);
                assert(linked(book.orders, Side::Ask, asks, i));
            }
            if b.contains(id) {
                let j: int = bids.index_of(id);
                assert(bids[j] == id);
                assert(linked(book.orders, Side::Bid, bids, j));
            }
            if book.orders.contains_key(id) {
                assert(asks.contains(id) || bids.contains(id));
            }
        }
    }
}

/// The order of the queues: asks from the lowest price up, bids from the highest
/// down, and at one price from the earliest order on. Each queue holds every order
/// of its side once, and the book's links follow it.
pub proof fn law_queues_are_sorted(
    book: Book,
    next_id: u64,
    asks: Seq<u64>,
    bids: Seq<u64>,
    i: int,
    j: int,
)
    requires
        queued(book, next_id, asks, bids),
        0 <= i < j,
    ensures
        j < asks.len() ==> {
            let (first, second) = (book.orders[asks[i]], book.orders[asks[j]]);
            &&& first.side == Side::Ask && second.side == Side::Ask
            &&& first.price_wad < second.price_wad || (first.price_wad == second.price_wad
                && first.id < second.id)
            &&& j == i + 1 ==> first.next == Some(second.id) && second.prev == Some(first.id)
        },
        j < bids.len() ==> {
            let (first, second) = (book.orders[bids[i]], book.orders[bids[j]]);
            &&& first.side == Side::Bid && second.side == Side::Bid
            &&& first.price_wad > second.price_wad || (first.price_wad == second.price_wad
                && first.id < second.id)
            &&& j == i + 1 ==> first.next == Some(second.id) && second.prev == Some(first.id)
        },
        asks.len() > 0 ==> book.ask_head == Some(asks[0]),
        bids.len() > 0 ==> book.bid_head == Some(bids[0]),
        asks.len() == 0 ==> book.ask_head is None,
        bids.len() == 0 ==> book.bid_head is None,
        forall|id: u64| #[trigger]
            book.orders.contains_key(id) ==> (book.orders[id].side == Side::Ask ==> asks.contains(id))
                && (book.orders[id].side == Side::Bid ==> bids.contains(id)),
{
    if j < asks.len() {
        assert(linked(book.orders, Side::Ask, asks, i));
        assert(linked(book.orders, Side::Ask, asks, j));
        assert(ranked(Side::Ask, book.orders[asks[i]], book.orders[asks[j]]));
    }
    if j < bids.len() {
        assert(linked(book.orders, Side::Bid, bids, i));
        assert(linked(book.orders, Side::Bid, bids, j));
        assert(ranked(Side::Bid, book.orders[bids[i]], book.orders[bids[j]]));
    }
}

} // verus!
