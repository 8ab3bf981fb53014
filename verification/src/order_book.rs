//! Price-time priority views of the order store.
//!
//! The book of a side holds every open order of that side with quantity
//! left, best first: for buys the highest price, for sells the lowest;
//! between equal prices the earlier order, and between orders placed at
//! the same time the one placed first.
use vstd::prelude::*;
use crate::market_types::{Order, OrderSide, OrderStatus};

verus! {

/// Whether `o` belongs in the book of `side`.
pub open spec fn live(o: Order, side: OrderSide) -> bool {
    o.side == side && o.status == OrderStatus::Open && o.remaining_qty > 0
}

/// Whether `a` has a better price than `b`, or the same price and an
/// earlier time.
pub open spec fn beats(a: Order, b: Order, side: OrderSide) -> bool {
    match side {
        OrderSide::Buy => a.price > b.price || (a.price == b.price && a.timestamp < b.timestamp),
        OrderSide::Sell => a.price < b.price || (a.price == b.price && a.timestamp < b.timestamp),
    }
}

/// Whether `a` comes before `b` in the book: it beats `b`, or neither
/// beats the other and `a` was placed first.
pub open spec fn ranks_before(a: Order, b: Order, side: OrderSide) -> bool {
    beats(a, b, side) || (!beats(b, a, side) && a.order_id < b.order_id)
}

/// Whether `book` is the book of `side` over the order store `store`.
pub open spec fn is_book(store: Seq<Order>, book: Seq<Order>, side: OrderSide) -> bool {
    &&& forall|k: int| 0 <= k < book.len() ==> live(#[trigger] book[k], side) && store.contains(book[k])
    &&& forall|i: int| 0 <= i < store.len() && live(#[trigger] store[i], side) ==> book.contains(store[i])
    &&& forall|i: int, j: int| 0 <= i < j < book.len() ==> ranks_before(#[trigger] book[i], #[trigger] book[j], side)
}

/// Order ids increase along the store.
pub open spec fn ids_increasing(s: Seq<Order>) -> bool {
    forall|i: int, j: int| 0 <= i < j < s.len() ==> (#[trigger] s[i]).order_id < (#[trigger] s[j]).order_id
}

/// Whether `o` is the first entry of the book of `side` over `store`.
pub open spec fn is_best(store: Seq<Order>, o: Order, side: OrderSide) -> bool {
    &&& live(o, side)
    &&& store.contains(o)
    &&& forall|i: int| 0 <= i < store.len() && live(#[trigger] store[i], side) && store[i] != o ==> ranks_before(o, store[i], side)
}

fn beats_exec(a: &Order, b: &Order, side: OrderSide) -> (r: bool)
    ensures
        r == beats(*a, *b, side),
{
    match side {
        OrderSide::Buy => a.price > b.price || (a.price == b.price && a.timestamp < b.timestamp),
        OrderSide::Sell => a.price < b.price || (a.price == b.price && a.timestamp < b.timestamp),
    }
}

/// The open orders of `side` with quantity left, in store order.
fn live_orders(orders: &Vec<Order>, side: OrderSide) -> (pool: Vec<Order>)
    requires
        ids_increasing(orders@),
    ensures
        ids_increasing(pool@),
        forall|k: int| 0 <= k < pool@.len() ==> live(#[trigger] pool@[k], side) && orders@.contains(pool@[k]),
        forall|i: int| 0 <= i < orders@.len() && live(#[trigger] orders@[i], side) ==> pool@.contains(orders@[i]),
{
    let mut pool: Vec<Order> = Vec::new();
    let mut i: usize = 0;
    while i < orders.len()
        invariant
            0 <= i <= orders@.len(),
            ids_increasing(orders@),
            ids_increasing(pool@),
            forall|k: int| 0 <= k < pool@.len() ==> exists|m: int| 0 <= m < i && orders@[m] == #[trigger] pool@[k],
            forall|k: int| 0 <= k < pool@.len() ==> live(#[trigger] pool@[k], side),
            forall|j: int| 0 <= j < i && live(#[trigger] orders@[j], side) ==> pool@.contains(orders@[j]),
        decreases orders@.len() - i,
    {
        let o = orders[i];
        if o.side == side && o.status == OrderStatus::Open && o.remaining_qty > 0 {
            let ghost p0 = pool@;
            pool.push(o);
            proof {
                assert forall|a: int, b: int| 0 <= a < b < pool@.len() implies (#[trigger] pool@[a]).order_id < (#[trigger] pool@[b]).order_id by {
                    if b == pool@.len() - 1 {
                        let m = choose|m: int| 0 <= m < i && orders@[m] == p0[a];
                        assert(orders@[m].order_id < orders@[i as int].order_id);
                    }
                }
                assert forall|k: int| 0 <= k < pool@.len() implies exists|m: int| 0 <= m < i + 1 && orders@[m] == #[trigger] pool@[k] by {
                    if k == pool@.len() - 1 {
                        assert(orders@[i as int] == pool@[k]);
                    } else {
                        assert(pool@[k] == p0[k]);
                    }
                }
                assert forall|j: int| 0 <= j < i + 1 && live(#[trigger] orders@[j], side) implies pool@.contains(orders@[j]) by {
                    if j == i {
                        assert(pool@[pool@.len() - 1] == orders@[j]);
                    } else {
                        assert(p0.contains(orders@[j]));
                        let k = choose|k: int| 0 <= k < p0.len() && p0[k] == orders@[j];
                        assert(pool@[k] == orders@[j]);
                    }
                }
            }
        }
        i = i + 1;
    }
    proof {
        assert forall|k: int| 0 <= k < pool@.len() implies live(#[trigger] pool@[k], side) && orders@.contains(pool@[k]) by {
            let m = choose|m: int| 0 <= m < orders@.len() && orders@[m] == pool@[k];
            assert(orders@[m] == pool@[k]);
        }
    }
    pool
}

/// Position of the best order in a non-empty pool.
fn best_index(pool: &Vec<Order>, side: OrderSide) -> (b: usize)
    requires
        pool@.len() > 0,
        ids_increasing(pool@),
    ensures
        b < pool@.len(),
        forall|j: int| 0 <= j < pool@.len() && j != b ==> ranks_before(pool@[b as int], #[trigger] pool@[j], side),
{
    let mut b: usize = 0;
    let mut i: usize = 1;
    while i < pool.len()
        invariant
            0 <= b < i <= pool@.len(),
            forall|j: int| 0 <= j < b ==> beats(pool@[b as int], #[trigger] pool@[j], side),
            forall|j: int| b <= j < i ==> !beats(#[trigger] pool@[j], pool@[b as int], side),
        decreases pool@.len() - i,
    {
        if beats_exec(&pool[i], &pool[b], side) {
            b = i;
        }
        i = i + 1;
    }
    proof {
        assert forall|j: int| 0 <= j < pool@.len() && j != b implies ranks_before(pool@[b as int], #[trigger] pool@[j], side) by {
            if j > b {
                assert(pool@[b as int].order_id < pool@[j].order_id);
            }
        }
    }
    b
}

/// The book of `side`: its open orders with quantity left, best first.
pub fn book(orders: &Vec<Order>, side: OrderSide) -> (r: Vec<Order>)
    requires
        ids_increasing(orders@),
    ensures
        is_book(orders@, r@, side),
{
    let mut pool = live_orders(orders, side);
    let mut sorted: Vec<Order> = Vec::new();
    while pool.len() > 0
        invariant
            ids_increasing(pool@),
            forall|k: int| 0 <= k < pool@.len() ==> live(#[trigger] pool@[k], side) && orders@.contains(pool@[k]),
            forall|k: int| 0 <= k < sorted@.len() ==> live(#[trigger] sorted@[k], side) && orders@.contains(sorted@[k]),
            forall|i: int| 0 <= i < orders@.len() && live(#[trigger] orders@[i], side) ==> sorted@.contains(orders@[i]) || pool@.contains(orders@[i]),
            forall|i: int, j: int| 0 <= i < j < sorted@.len() ==> ranks_before(#[trigger] sorted@[i], #[trigger] sorted@[j], side),
            forall|i: int, k: int| 0 <= i < sorted@.len() && 0 <= k < pool@.len() ==> ranks_before(#[trigger] sorted@[i], #[trigger] pool@[k], side),
        decreases pool@.len(),
    {
        let b = best_index(&pool, side);
        let ghost p0 = pool@;
        let ghost s0 = sorted@;
        let best = pool.remove(b);
        sorted.push(best);
        proof {
            assert forall|k: int| 0 <= k < pool@.len() implies pool@[k] == if k < b { p0[k] } else { p0[k + 1] } by {}
            assert forall|a: int, c: int| 0 <= a < c < pool@.len() implies (#[trigger] pool@[a]).order_id < (#[trigger] pool@[c]).order_id by {
                let a0 = if a < b { a } else { a + 1 };
                let c0 = if c < b { c } else { c + 1 };
                assert(p0[a0].order_id < p0[c0].order_id);
            }
            assert forall|k: int| 0 <= k < pool@.len() implies live(#[trigger] pool@[k], side) && orders@.contains(pool@[k]) by {
                let k0 = if k < b { k } else { k + 1 };
                assert(pool@[k] == p0[k0]);
            }
            assert forall|k: int| 0 <= k < sorted@.len() implies live(#[trigger] sorted@[k], side) && orders@.contains(sorted@[k]) by {
                if k < s0.len() {
                    assert(sorted@[k] == s0[k]);
                } else {
                    assert(sorted@[k] == p0[b as int]);
                }
            }
            assert forall|i: int| 0 <= i < orders@.len() && live(#[trigger] orders@[i], side) implies sorted@.contains(orders@[i]) || pool@.contains(orders@[i]) by {
                let x = orders@[i];
                if s0.contains(x) {
                    let k = choose|k: int| 0 <= k < s0.len() && s0[k] == x;
                    assert(sorted@[k] == x);
                } else {
                    assert(p0.contains(x));
                    let k = choose|k: int| 0 <= k < p0.len() && p0[k] == x;
                    if k == b {
                        assert(sorted@[sorted@.len() - 1] == x);
                    } else if k < b {
                        assert(pool@[k] == x);
                    } else {
                        assert(pool@[k - 1] == x);
                    }
                }
            }
            assert forall|i: int, j: int| 0 <= i < j < sorted@.len() implies ranks_before(#[trigger] sorted@[i], #[trigger] sorted@[j], side) by {
                if j == sorted@.len() - 1 {
                    assert(sorted@[i] == s0[i]);
                    assert(sorted@[j] == p0[b as int]);
                } else {
                    assert(sorted@[i] == s0[i]);
                    assert(sorted@[j] == s0[j]);
                }
            }
            assert forall|i: int, k: int| 0 <= i < sorted@.len() && 0 <= k < pool@.len() implies ranks_before(#[trigger] sorted@[i], #[trigger] pool@[k], side) by {
                let k0 = if k < b { k } else { k + 1 };
                assert(pool@[k] == p0[k0]);
                if i == sorted@.len() - 1 {
                    assert(sorted@[i] == p0[b as int]);
                    assert(k0 != b);
                } else {
                    assert(sorted@[i] == s0[i]);
                }
            }
        }
    }
    sorted
}

/// The buy orders of the book, best first.
pub fn buy_orders(orders: &Vec<Order>) -> (r: Vec<Order>)
    requires
        ids_increasing(orders@),
    ensures
        is_book(orders@, r@, OrderSide::Buy),
{
    book(orders, OrderSide::Buy)
}

/// The sell orders of the book, best first.
pub fn sell_orders(orders: &Vec<Order>) -> (r: Vec<Order>)
    requires
        ids_increasing(orders@),
    ensures
        is_book(orders@, r@, OrderSide::Sell),
{
    book(orders, OrderSide::Sell)
}

/// The first entry of a book, which is the best order of its side.
proof fn lemma_book_head(store: Seq<Order>, bk: Seq<Order>, side: OrderSide)
    requires
        is_book(store, bk, side),
        bk.len() > 0,
    ensures
        is_best(store, bk[0], side),
{
    assert forall|i: int| 0 <= i < store.len() && live(#[trigger] store[i], side) && store[i] != bk[0] implies ranks_before(bk[0], store[i], side) by {
        assert(bk.contains(store[i]));
        let k = choose|k: int| 0 <= k < bk.len() && bk[k] == store[i];
        assert(k != 0);
        assert(ranks_before(bk[0], bk[k], side));
    }
}

/// An empty book means no order of that side is live.
proof fn lemma_book_empty(store: Seq<Order>, bk: Seq<Order>, side: OrderSide)
    requires
        is_book(store, bk, side),
        bk.len() == 0,
    ensures
        forall|i: int| 0 <= i < store.len() ==> !live(#[trigger] store[i], side),
{
    assert forall|i: int| 0 <= i < store.len() implies !live(#[trigger] store[i], side) by {
        if live(store[i], side) {
            assert(bk.contains(store[i]));
        }
    }
}

/// The best order of `side`, if any.
fn best(orders: &Vec<Order>, side: OrderSide) -> (r: Option<Order>)
    requires
        ids_increasing(orders@),
    ensures
        r is None <==> forall|i: int| 0 <= i < orders@.len() ==> !live(#[trigger] orders@[i], side),
        r matches Some(o) ==> is_best(orders@, o, side),
{
    let bk = book(orders, side);
    if bk.len() == 0 {
        proof {
            lemma_book_empty(orders@, bk@, side);
        }
        None
    } else {
        proof {
            lemma_book_head(orders@, bk@, side);
            let o = bk@[0];
            let m = choose|m: int| 0 <= m < orders@.len() && orders@[m] == o;
            assert(live(orders@[m], side));
        }
        Some(bk[0])
    }
}

/// The best buy order: highest price, then earliest.
pub fn best_bid(orders: &Vec<Order>) -> (r: Option<Order>)
    requires
        ids_increasing(orders@),
    ensures
        r is None <==> forall|i: int| 0 <= i < orders@.len() ==> !live(#[trigger] orders@[i], OrderSide::Buy),
        r matches Some(o) ==> is_best(orders@, o, OrderSide::Buy),
{
    best(orders, OrderSide::Buy)
}

/// The best sell order: lowest price, then earliest.
pub fn best_ask(orders: &Vec<Order>) -> (r: Option<Order>)
    requires
        ids_increasing(orders@),
    ensures
        r is None <==> forall|i: int| 0 <= i < orders@.len() ==> !live(#[trigger] orders@[i], OrderSide::Sell),
        r matches Some(o) ==> is_best(orders@, o, OrderSide::Sell),
{
    best(orders, OrderSide::Sell)
}

proof fn lemma_sorted_unique(a: Seq<Order>, b: Seq<Order>, side: OrderSide)
    requires
        forall|i: int, j: int| 0 <= i < j < a.len() ==> ranks_before(#[trigger] a[i], #[trigger] a[j], side),
        forall|i: int, j: int| 0 <= i < j < b.len() ==> ranks_before(#[trigger] b[i], #[trigger] b[j], side),
        forall|x: Order| a.contains(x) <==> b.contains(x),
    ensures
        a == b,
    decreases a.len(),
{
    if a.len() == 0 {
        if b.len() > 0 {
            assert(b.contains(b[0]));
        }
        assert(a =~= b);
    } else {
        assert(a.contains(a[0]));
        let k = choose|k: int| 0 <= k < b.len() && b[k] == a[0];
        assert(b.contains(b[0]));
        let m = choose|m: int| 0 <= m < a.len() && a[m] == b[0];
        if k > 0 && m > 0 {
            assert(ranks_before(b[0], b[k], side));
            assert(ranks_before(a[0], a[m], side));
        }
        assert(a[0] == b[0]);
        let ta = a.drop_first();
        let tb = b.drop_first();
        assert forall|x: Order| ta.contains(x) <==> tb.contains(x) by {
            if ta.contains(x) {
                let i = choose|i: int| 0 <= i < ta.len() && ta[i] == x;
                assert(a[i + 1] == x);
                assert(ranks_before(a[0], a[i + 1], side));
                assert(a.contains(x));
                let j = choose|j: int| 0 <= j < b.len() && b[j] == x;
                assert(j != 0);
                assert(tb[j - 1] == x);
            }
            if tb.contains(x) {
                let i = choose|i: int| 0 <= i < tb.len() && tb[i] == x;
                assert(b[i + 1] == x);
                assert(ranks_before(b[0], b[i + 1], side));
                assert(b.contains(x));
                let j = choose|j: int| 0 <= j < a.len() && a[j] == x;
                assert(j != 0);
                assert(ta[j - 1] == x);
            }
        }
        assert forall|i: int, j: int| 0 <= i < j < ta.len() implies ranks_before(#[trigger] ta[i], #[trigger] ta[j], side) by {
            assert(ranks_before(a[i + 1], a[j + 1], side));
        }
        assert forall|i: int, j: int| 0 <= i < j < tb.len() implies ranks_before(#[trigger] tb[i], #[trigger] tb[j], side) by {
            assert(ranks_before(b[i + 1], b[j + 1], side));
        }
        lemma_sorted_unique(ta, tb, side);
        assert(a =~= seq![a[0]] + ta);
        assert(b =~= seq![b[0]] + tb);
    }
}

/// The book of a side is determined by the store: any two sequences
/// that meet the book's description are equal.
pub proof fn law_book_unique(store: Seq<Order>, b1: Seq<Order>, b2: Seq<Order>, side: OrderSide)
    requires
        is_book(store, b1, side),
        is_book(store, b2, side),
    ensures
        b1 == b2,
{
    assert forall|x: Order| b1.contains(x) <==> b2.contains(x) by {
        if b1.contains(x) {
            let k = choose|k: int| 0 <= k < b1.len() && b1[k] == x;
            let i = choose|i: int| 0 <= i < store.len() && store[i] == b1[k];
            assert(live(store[i], side));
        }
        if b2.contains(x) {
            let k = choose|k: int| 0 <= k < b2.len() && b2[k] == x;
            let i = choose|i: int| 0 <= i < store.len() && store[i] == b2[k];
            assert(live(store[i], side));
        }
    }
    lemma_sorted_unique(b1, b2, side);
}


/// Price-time priority of a book: a better price comes first (higher for
/// buys, lower for sells), and between two orders of the same price the
/// one with the earlier timestamp comes first, on either side.
pub proof fn law_book_price_time_priority(store: Seq<Order>, book: Seq<Order>, side: OrderSide, i: int, j: int)
    requires
        is_book(store, book, side),
        0 <= i < book.len(),
        0 <= j < book.len(),
    ensures
        book[i].price == book[j].price && book[i].timestamp < book[j].timestamp ==> i < j,
        side == OrderSide::Buy && book[i].price > book[j].price ==> i < j,
        side == OrderSide::Sell && book[i].price < book[j].price ==> i < j,
{
    if j < i {
        assert(ranks_before(book[j], book[i], side));
    }
}

/// The best order of a side has the best price among the live orders of
/// that side (highest for buys, lowest for sells), and no live order of
/// the same price has an earlier timestamp.
pub proof fn law_best_has_priority(store: Seq<Order>, o: Order, side: OrderSide, k: int)
    requires
        is_best(store, o, side),
        0 <= k < store.len(),
        live(store[k], side),
    ensures
        side == OrderSide::Buy ==> store[k].price <= o.price,
        side == OrderSide::Sell ==> o.price <= store[k].price,
        store[k].price == o.price ==> o.timestamp <= store[k].timestamp,
{
    if store[k] != o {
        assert(ranks_before(o, store[k], side));
    }
}

} // verus!
