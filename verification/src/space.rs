//! How much room a book has, and what it refuses for want of it.

use crate::message::Side;
use crate::model::{BookError, BookModel};
use crate::tick::{keep_view, Slot, TickWindow};
use vstd::prelude::*;

verus! {

/// Something rests at `price`, on either side.
pub open spec fn occupied_price(m: BookModel, price: i64) -> bool {
    m.queue(Side::Bid, price).len() > 0 || m.queue(Side::Ask, price).len() > 0
}

/// `k` is the lowest and the highest price at which something rests, or `None` of
/// an empty book.
pub open spec fn is_extent(m: BookModel, k: Option<(i64, i64)>) -> bool {
    match k {
        None => forall|p: i64| !#[trigger] occupied_price(m, p),
        Some((lo, hi)) => {
            &&& occupied_price(m, lo)
            &&& occupied_price(m, hi)
            &&& forall|p: i64| #[trigger] occupied_price(m, p) ==> lo <= p <= hi
        },
    }
}

/// The prices a book spans.
pub open spec fn extent(m: BookModel) -> Option<(i64, i64)> {
    choose|k: Option<(i64, i64)>| is_extent(m, k)
}

pub proof fn lemma_extent_is(m: BookModel, k: Option<(i64, i64)>)
    requires
        is_extent(m, k),
    ensures
        extent(m) == k,
{
    let e = extent(m);
    assert(is_extent(m, e));
    if e is None && k is Some {
        let (lo, hi) = k->0;
        assert(occupied_price(m, lo));
    }
    if e is Some && k is None {
        let (lo, hi) = e->0;
        assert(occupied_price(m, lo));
    }
}

/// The window moved, if need be, to hold `price` and everything that rests.
pub open spec fn placed_window(w: TickWindow, m: BookModel, price: i64) -> Option<TickWindow> {
    match w.slot(price as int) {
        Slot::At(_) => Some(w),
        Slot::OffGrid => None,
        Slot::Outside => if w.can_rebase(price as int, keep_view(extent(m))) {
            Some(w.placed(price as int, keep_view(extent(m))))
        } else {
            None
        },
    }
}

/// The room a book has: all there is, or a window of prices and so many orders.
pub enum Space {
    Unbounded,
    Bounded { window: TickWindow, orders: nat },
}

impl Space {
    /// The room after the book has made place for `price`.
    pub open spec fn placed(self, m: BookModel, price: i64) -> Space {
        match self {
            Space::Unbounded => self,
            Space::Bounded { window, orders } => match placed_window(window, m, price) {
                Some(w) => Space::Bounded { window: w, orders },
                None => self,
            },
        }
    }

    /// What a move to `price` is refused for: a price between ticks, or one that
    /// the window cannot hold together with what rests.
    pub open spec fn price_refusal(self, m: BookModel, order_id: u64, price: i64) -> Option<
        BookError,
    > {
        match self {
            Space::Unbounded => None,
            Space::Bounded { window, orders } => if window.slot(price as int) == Slot::OffGrid {
                Some(BookError::PriceOffGrid { order_id, price })
            } else if placed_window(window, m, price) is None {
                Some(BookError::PriceOutOfRange { order_id, price })
            } else {
                None
            },
        }
    }

    /// What a new order is refused for: its price, or that the book is full.
    pub open spec fn add_refusal(self, m: BookModel, order_id: u64, price: i64) -> Option<
        BookError,
    > {
        match self {
            Space::Unbounded => None,
            Space::Bounded { window, orders } => if self.price_refusal(m, order_id, price) is Some {
                self.price_refusal(m, order_id, price)
            } else if m.len() == orders {
                Some(BookError::SlabFull { order_id, capacity: orders as usize })
            } else {
                None
            },
        }
    }
}

/// What a book of limited room refuses a new order for: a price between ticks; a price that
/// its window, moved or not, cannot hold together with what rests; and an order more than it
/// has room for. A book of unlimited room refuses nothing.
pub proof fn law_what_there_is_no_room_for(
    window: TickWindow,
    orders: nat,
    m: BookModel,
    order_id: u64,
    price: i64,
)
    requires
        m.len() <= orders <= usize::MAX,
        window.tick >= 1,
    ensures
        ({
            let room = Space::Bounded { window, orders };
            let on_grid = (price - window.anchor) % window.tick == 0;
            let held = window.holds(price as int) || window.can_rebase(
                price as int,
                keep_view(extent(m)),
            );
            &&& room.price_refusal(m, order_id, price) == (if !on_grid {
                Some(BookError::PriceOffGrid { order_id, price })
            } else if !held {
                Some(BookError::PriceOutOfRange { order_id, price })
            } else {
                None
            })
            &&& room.add_refusal(m, order_id, price) is None <==> on_grid && held && m.len()
                < orders
            &&& on_grid && held && m.len() == orders ==> room.add_refusal(m, order_id, price)
                == Some(BookError::SlabFull { order_id, capacity: orders as usize })
            &&& window.holds(price as int) ==> room.placed(m, price) == room
        }),
        Space::Unbounded.add_refusal(m, order_id, price) is None,
        Space::Unbounded.price_refusal(m, order_id, price) is None,
{
}

} // verus!
