use vstd::prelude::*;
use crate::ladder::{better, consumed, fill_value, notional, room_for, slot, Level};
use crate::transaction::Transaction;
use crate::utils::{Direction, Price, Time, Value, Volume};

verus! {

/// Start of the morning session, 09:30:00.000.
pub const AM_START: Time = 34200000;

/// End of the morning session, 11:30:00.000.
pub const AM_END: Time = 41400000;

/// Start of the afternoon session, 13:00:00.000.
pub const PM_START: Time = 46800000;

/// End of the afternoon session, 15:00:00.000.
pub const PM_END: Time = 54000000;

/// Whether a time of day lies in one of the two trading sessions, both ends
/// included.
pub open spec fn in_session(t: int) -> bool {
    (AM_START <= t <= AM_END) || (PM_START <= t <= PM_END)
}

/// Why a market order was not executed.
#[derive(Debug, Clone, Copy, PartialEq, Eq, Structural)]
pub enum OrderError {
    /// The snapshot at this time lies outside the trading sessions.
    NotInTradingTime(Time),
}

/// One snapshot of the order book.
#[derive(Debug)]
pub struct Tick {
    pub timestamp: Time,
    pub new_price: Price,
    /// Ask levels, lowest price first.
    pub asks: Vec<Level>,
    /// Bid levels, highest price first.
    pub bids: Vec<Level>,
    pub high_limited: Price,
    pub low_limited: Price,
}

/// The rest of a resting order of `volume` shares at `price`, placed on
/// `levels` (best first; `ascending` for asks), after `trx` has traded
/// against the side: our order joins the level at its price, or forms a new
/// level where that price belongs; a level shared with others keeps our
/// pro-rata share of what is left of it.
pub open spec fn rest_after_trade(levels: Seq<Level>, ascending: bool, price: Price, volume: Volume, trx: Transaction) -> int {
    let i = slot(levels, price, ascending) as int;
    if i < levels.len() && levels[i].0 == price {
        let before = levels[i].1 + volume;
        let after = consumed(levels.update(i, (price, before as usize)), trx.direction, trx.price, trx.volume as nat)[i].1;
        after * volume / before
    } else {
        consumed(levels.insert(i, (price, volume)), trx.direction, trx.price, trx.volume as nat)[i].1 as int
    }
}

fn is_better(p: Price, q: Price, ascending: bool) -> (r: bool)
    ensures
        r == better(p, q, ascending),
{
    if ascending {
        p < q
    } else {
        p > q
    }
}

fn find_slot(levels: &Vec<Level>, price: Price, ascending: bool) -> (r: usize)
    ensures
        r == slot(levels@, price, ascending),
        r <= levels.len(),
{
    let mut i: usize = 0;
    assert(levels@.skip(0) =~= levels@);
    while i < levels.len() && is_better(levels[i].0, price, ascending)
        invariant
            i <= levels.len(),
            slot(levels@, price, ascending) == i + slot(levels@.skip(i as int), price, ascending),
        decreases levels.len() - i,
    {
        assert(levels@.skip(i as int).drop_first() =~= levels@.skip(i + 1));
        i = i + 1;
    }
    i
}

fn copy_levels(levels: &Vec<Level>) -> (r: Vec<Level>)
    ensures
        r@ == levels@,
{
    let mut r: Vec<Level> = Vec::new();
    let mut i: usize = 0;
    while i < levels.len()
        invariant
            i <= levels.len(),
            r@ == levels@.take(i as int),
        decreases levels.len() - i,
    {
        r.push(levels[i]);
        assert(r@ =~= levels@.take(i + 1));
        i = i + 1;
    }
    assert(r@ =~= levels@);
    r
}

impl Tick {
    /// Both sides' notional fits in `usize`.
    pub open spec fn wf(&self) -> bool {
        &&& notional(self.asks@) <= usize::MAX
        &&& notional(self.bids@) <= usize::MAX
    }

    /// The side a resting order of `direction` joins, as read by the
    /// simulation: a buy rests among the asks and a sell among the bids.
    /// Open question: on a real book a resting sell joins the asks and a
    /// resting buy the bids; the inverted sides are kept as the simulation
    /// has always read them.
    pub open spec fn resting_levels(&self, direction: Direction) -> Seq<Level> {
        match direction {
            Direction::Buy => self.asks@,
            Direction::Sell => self.bids@,
        }
    }

    /// The side a market order of `direction` consumes.
    pub open spec fn market_levels(&self, direction: Direction) -> Seq<Level> {
        match direction {
            Direction::Buy => self.asks@,
            Direction::Sell => self.bids@,
        }
    }

    /// What is left of a resting order after one trade of the tape.
    pub open spec fn limit_rest(&self, price: Price, volume: Volume, direction: Direction, trx: Transaction) -> int {
        if trx.direction == direction {
            volume as int
        } else {
            rest_after_trade(self.resting_levels(direction), direction == Direction::Buy, price, volume, trx)
        }
    }

    /// Milliseconds from `other` to this snapshot.
    pub fn time_eplased(&self, other: &Self) -> (r: Time)
        requires
            i64::MIN <= self.timestamp - other.timestamp <= i64::MAX,
        ensures
            r == self.timestamp - other.timestamp,
    {
        self.timestamp - other.timestamp
    }

    pub fn in_trading_time(&self) -> (r: bool)
        ensures
            r == in_session(self.timestamp as int),
    {
        (self.timestamp >= AM_START && self.timestamp <= AM_END) || (self.timestamp >= PM_START
            && self.timestamp <= PM_END)
    }

    /// A buy must be priced below the upper limit, a sell above the lower.
    pub fn is_price_valid(&self, price: Price, direction: Direction) -> (r: bool)
        ensures
            r == match direction {
                Direction::Buy => price < self.high_limited,
                Direction::Sell => price > self.low_limited,
            },
    {
        match direction {
            Direction::Buy => price < self.high_limited,
            Direction::Sell => price > self.low_limited,
        }
    }

    pub fn get_first_ask_price(&self) -> (r: Option<Price>)
        ensures
            self.asks.len() == 0 ==> r is None,
            self.asks.len() > 0 ==> r == Some(self.asks@[0].0),
    {
        if self.asks.len() == 0 {
            None
        } else {
            Some(self.asks[0].0)
        }
    }

    pub fn get_first_bid_price(&self) -> (r: Option<Price>)
        ensures
            self.bids.len() == 0 ==> r is None,
            self.bids.len() > 0 ==> r == Some(self.bids@[0].0),
    {
        if self.bids.len() == 0 {
            None
        } else {
            Some(self.bids[0].0)
        }
    }

    /// Volume left of a resting order of `volume` shares at `price` after
    /// `transaction`: a trade on the order's own side leaves it whole;
    /// otherwise the order is placed on its side of this snapshot and the
    /// trade consumes that side.
    pub fn handle_limit_order_by_transaction(
        &self,
        price: Price,
        volume: Volume,
        direction: Direction,
        transaction: &Transaction,
    ) -> (r: Volume)
        requires
            volume > 0,
            room_for(self.resting_levels(direction), volume),
        ensures
            r == self.limit_rest(price, volume, direction, *transaction),
    {
        if transaction.direction == direction {
            return volume;
        }
        let ascending = match direction {
            Direction::Buy => true,
            Direction::Sell => false,
        };
        let side = match direction {
            Direction::Buy => &self.asks,
            Direction::Sell => &self.bids,
        };
        let index = find_slot(side, price, ascending);
        let mut orders = copy_levels(side);
        if index < orders.len() && orders[index].0 == price {
            let volume_before = orders[index].1 + volume;
            orders.set(index, (price, volume_before));
            transaction.handle(&mut orders);
            proof {
                crate::ladder::lemma_consumed_len(side@.update(index as int, (price, volume_before)), transaction.direction, transaction.price, transaction.volume as nat);
            }
            let volume_after = orders[index].1;
            assert((volume_after as u128) * (volume as u128) <= u128::MAX) by (nonlinear_arith)
                requires volume_after <= usize::MAX, volume <= usize::MAX;
            let scaled = (volume_after as u128) * (volume as u128) / (volume_before as u128);
            proof {
                assert(scaled <= volume_after) by (nonlinear_arith)
                    requires
                        scaled == (volume_after as int) * (volume as int) / (volume_before as int),
                        volume as int <= volume_before as int,
                        volume > 0;
            }
            scaled as usize
        } else {
            orders.insert(index, (price, volume));
            transaction.handle(&mut orders);
            proof {
                crate::ladder::lemma_consumed_len(side@.insert(index as int, (price, volume)), transaction.direction, transaction.price, transaction.volume as nat);
            }
            orders[index].1
        }
    }

    /// Fills a market order of `volume` shares against the side it
    /// consumes; returns its average price (truncated) and total value.
    pub fn handle_market_order(&self, volume: usize, direction: Direction) -> (r: Result<(Price, Value), OrderError>)
        requires
            volume > 0,
            self.wf(),
        ensures
            !in_session(self.timestamp as int) <==> r == Err::<(Price, Value), OrderError>(OrderError::NotInTradingTime(self.timestamp)),
            in_session(self.timestamp as int) ==> r == Ok::<(Price, Value), OrderError>((
                (fill_value(self.market_levels(direction), volume as nat) / volume as nat) as usize,
                fill_value(self.market_levels(direction), volume as nat) as usize,
            )),
    {
        if !self.in_trading_time() {
            return Err(OrderError::NotInTradingTime(self.timestamp));
        }
        let levels = match direction {
            Direction::Buy => &self.asks,
            Direction::Sell => &self.bids,
        };
        let ghost total = fill_value(levels@, volume as nat);
        proof {
            crate::ladder::lemma_fill_value_le_notional(levels@, volume as nat);
            assert(levels@.skip(0) =~= levels@);
        }
        let mut value: usize = 0;
        let mut left_volume = volume;
        let mut i: usize = 0;
        let mut done = false;
        while i < levels.len() && !done
            invariant
                i <= levels.len(),
                total <= usize::MAX,
                left_volume > 0,
                done ==> value == total,
                !done ==> value + fill_value(levels@.skip(i as int), left_volume as nat) == total,
            decreases levels.len() - i + (if done { 0int } else { 1int }),
        {
            let (p, v) = levels[i];
            let ghost rest = levels@.skip(i as int);
            assert(rest[0] == (p, v));
            if v >= left_volume {
                value = value + p * left_volume;
                done = true;
            } else {
                assert(rest.drop_first() =~= levels@.skip(i + 1));
                left_volume = left_volume - v;
                value = value + p * v;
                i = i + 1;
            }
        }
        Ok((value / volume, value))
    }
}

} // verus!
