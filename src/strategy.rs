use rayon::iter::{IntoParallelRefIterator, ParallelIterator};
use vstd::multiset::Multiset;
use vstd::prelude::*;
use crate::ladder::{fill_value, has_room_for, notional_fits, room_for};
use crate::tick::{in_session, OrderError, Tick};
use crate::transaction::Transaction;
use crate::utils::{Direction, Price, Time, Value, Volume};

verus! {

/// A non-negative fraction `num / den`.
#[derive(Debug, Clone, Copy, PartialEq, Eq, Structural)]
pub struct Ratio {
    pub num: u32,
    pub den: u32,
}

impl Ratio {
    pub open spec fn wf(&self) -> bool {
        self.den > 0
    }

    /// At most one.
    pub open spec fn is_fraction(&self) -> bool {
        self.den > 0 && self.num <= self.den
    }
}

/// `value` less the fee `fee` of it, truncated.
pub open spec fn after_fee(value: int, fee: Ratio) -> int {
    value * (fee.den - fee.num) / (fee.den as int)
}

/// Deducts the fee `fee` from `value`, truncating.
pub fn apply_fee(value: Value, fee: Ratio) -> (r: Value)
    requires
        fee.is_fraction(),
    ensures
        r == after_fee(value as int, fee),
        r <= value,
{
    let keep = (fee.den - fee.num) as u128;
    let den = fee.den as u128;
    assert((value as u128) * keep <= u128::MAX) by (nonlinear_arith)
        requires value <= usize::MAX, keep <= u32::MAX;
    let r = (value as u128) * keep / den;
    assert(r <= value) by (nonlinear_arith)
        requires r == (value as int) * (keep as int) / (den as int), keep <= den, den > 0, value >= 0;
    r as usize
}

/// Whether a price `earlier` is at least `threshold` above `now`:
/// `earlier >= now * (1 + threshold)`.
pub open spec fn risen(earlier: Price, now: Price, threshold: Ratio) -> bool {
    earlier * threshold.den >= now * (threshold.den + threshold.num)
}

fn has_risen(earlier: Price, now: Price, threshold: Ratio) -> (r: bool)
    ensures
        r == risen(earlier, now, threshold),
{
    let e = earlier as u128;
    let d = threshold.den as u128;
    let n = now as u128;
    let g = (threshold.den as u128) + (threshold.num as u128);
    assert(e * d <= u128::MAX && n * g <= u128::MAX) by (nonlinear_arith)
        requires
            e <= usize::MAX, n <= usize::MAX,
            d <= u32::MAX, g <= 2 * u32::MAX;
    e * d >= n * g
}

/// Thresholds of the strategy, with times in milliseconds and ratios as
/// fractions.
#[derive(Debug, Clone, Copy)]
pub struct StrategyConfig {
    /// How far back a higher price is looked for.
    pub rise_duration: Time,
    /// Relative rise that triggers an open.
    pub rise_threshold: Ratio,
    /// Shares bought by each open.
    pub open_volume: Volume,
    /// Least time between two opens.
    pub open_min_interval: Time,
    /// Delay from an open to the placing of its resting close order.
    pub limit_close_elapsed: Time,
    /// Delay from the placing of a close order to its market fallback.
    pub close_waiting_elapsed: Time,
    /// Fee on market closes.
    pub active_fee_ratio: Ratio,
    /// Fee on resting closes.
    pub passive_fee_ratio: Ratio,
}

impl StrategyConfig {
    pub open spec fn wf(&self) -> bool {
        &&& self.rise_threshold.wf()
        &&& self.active_fee_ratio.is_fraction()
        &&& self.passive_fee_ratio.is_fraction()
        &&& self.open_volume > 0
    }
}

/// A fill made by the simulation.
#[derive(Debug, Clone, Copy, PartialEq, Eq, Structural)]
pub struct Order {
    pub timestamp: Time,
    pub price: Price,
    pub volume: Volume,
    pub value: Value,
}

/// Tick and trade sequences of one trading day, with the configuration.
#[derive(Debug)]
pub struct StrategyContext {
    pub ticks: Vec<Tick>,
    pub transactions: Vec<Transaction>,
    pub config: StrategyConfig,
}

impl StrategyContext {
    /// The configuration is usable, every snapshot's notional fits in
    /// `usize`, and so do a position of the configured size at any best ask
    /// and any bid level grown by such a position.
    pub open spec fn wf(&self) -> bool {
        &&& self.config.wf()
        &&& forall|i: int| 0 <= i < self.ticks.len() ==> #[trigger] self.ticks@[i].wf()
        &&& forall|i: int| 0 <= i < self.ticks.len() ==> room_for(#[trigger] self.ticks@[i].bids@, self.config.open_volume)
        &&& forall|i: int| 0 <= i < self.ticks.len() && #[trigger] self.ticks@[i].asks.len() > 0
            ==> self.ticks@[i].asks@[0].0 * self.config.open_volume <= usize::MAX
    }

    /// Checks what the simulation needs of the configuration and the data.
    pub fn is_well_formed(&self) -> (r: bool)
        ensures
            r == self.wf(),
    {
        let c = &self.config;
        if c.rise_threshold.den == 0 || c.active_fee_ratio.den == 0 || c.active_fee_ratio.num > c.active_fee_ratio.den
            || c.passive_fee_ratio.den == 0 || c.passive_fee_ratio.num > c.passive_fee_ratio.den || c.open_volume == 0 {
            return false;
        }
        let mut i: usize = 0;
        while i < self.ticks.len()
            invariant
                i <= self.ticks.len(),
                self.config.wf(),
                forall|k: int| 0 <= k < i ==> #[trigger] self.ticks@[k].wf(),
                forall|k: int| 0 <= k < i ==> room_for(#[trigger] self.ticks@[k].bids@, self.config.open_volume),
                forall|k: int| 0 <= k < i && #[trigger] self.ticks@[k].asks.len() > 0
                    ==> self.ticks@[k].asks@[0].0 * self.config.open_volume <= usize::MAX,
            decreases self.ticks.len() - i,
        {
            let t = &self.ticks[i];
            if !notional_fits(&t.asks) || !notional_fits(&t.bids) || !has_room_for(&t.bids, self.config.open_volume) {
                assert(!self.ticks@[i as int].wf() || !room_for(self.ticks@[i as int].bids@, self.config.open_volume));
                return false;
            }
            if t.asks.len() > 0 && t.asks[0].0.checked_mul(self.config.open_volume).is_none() {
                assert(self.ticks@[i as int].asks.len() > 0);
                return false;
            }
            i = i + 1;
        }
        true
    }

    /// Snapshots in ascending time order.
    pub open spec fn ticks_sorted(&self) -> bool {
        forall|i: int, j: int| 0 <= i <= j < self.ticks.len() ==> self.ticks@[i].timestamp <= self.ticks@[j].timestamp
    }

    /// Trades in ascending time order.
    pub open spec fn transactions_sorted(&self) -> bool {
        forall|i: int, j: int| 0 <= i <= j < self.transactions.len()
            ==> self.transactions@[i].timestamp <= self.transactions@[j].timestamp
    }

    /// Every snapshot from `j` up to (not including) `index` lies within the
    /// look-back window of snapshot `index`.
    pub open spec fn in_window(&self, j: int, index: int) -> bool {
        forall|m: int| j <= m < index ==> self.ticks@[index].timestamp - #[trigger] self.ticks@[m].timestamp
            <= self.config.rise_duration
    }

    /// Whether snapshot `index` triggers an open when the last open was at
    /// `last_open`: it is in a session, the cooldown has passed, and some
    /// earlier snapshot within an unbroken look-back window priced at least
    /// the threshold above it.
    pub open spec fn triggers(&self, index: int, last_open: Time) -> bool {
        let t = self.ticks@[index];
        &&& in_session(t.timestamp as int)
        &&& t.timestamp - last_open > self.config.open_min_interval
        &&& exists|j: int| 0 <= j < index && #[trigger] risen(self.ticks@[j].new_price, t.new_price, self.config.rise_threshold)
            && self.in_window(j, index)
    }

    /// The market buy made at snapshot `index`.
    pub open spec fn open_order(&self, index: int) -> Order {
        let t = self.ticks@[index];
        let v = fill_value(t.asks@, self.config.open_volume as nat);
        Order {
            timestamp: t.timestamp,
            price: (v / self.config.open_volume as nat) as usize,
            volume: self.config.open_volume,
            value: v as usize,
        }
    }

    /// Opens among the first `n` snapshots, each with its snapshot index,
    /// and the time of the last of them (0 when there is none).
    pub open spec fn opens_upto(&self, n: nat) -> (Seq<(usize, Order)>, Time)
        decreases n,
    {
        if n == 0 {
            (Seq::empty(), 0)
        } else {
            let (s, last) = self.opens_upto((n - 1) as nat);
            let i = n - 1;
            if self.triggers(i, last) {
                (s.push((i as usize, self.open_order(i))), self.ticks@[i].timestamp)
            } else {
                (s, last)
            }
        }
    }

    /// All opens of the day.
    pub open spec fn opens(&self) -> Seq<(usize, Order)> {
        self.opens_upto(self.ticks.len() as nat).0
    }

    /// First snapshot at or after `k` later than `deadline`; the number of
    /// snapshots when there is none.
    pub open spec fn first_later(&self, k: int, deadline: int) -> int
        decreases self.ticks.len() - k,
    {
        if k >= self.ticks.len() {
            self.ticks.len() as int
        } else if self.ticks@[k].timestamp > deadline {
            k
        } else {
            self.first_later(k + 1, deadline)
        }
    }

    /// The resting close order of the position opened at snapshot `index`:
    /// at the first snapshot from `index` on that is later than the open by
    /// more than the close delay, priced at that snapshot's best ask, for
    /// the whole position. None when no such snapshot exists, or when it
    /// quotes no ask: such a position is skipped and never closed.
    /// Open question: the order is a sell, yet it is priced at the ask and
    /// not at the bid; this is kept as the simulation has always done it.
    pub open spec fn scheduled_close(&self, index: int, opened: Order) -> Option<(usize, Order)> {
        let j = self.first_later(index, opened.timestamp + self.config.limit_close_elapsed);
        if j >= self.ticks.len() || self.ticks@[j].asks.len() == 0 {
            None
        } else {
            let price = self.ticks@[j].asks@[0].0;
            Some((j as usize, Order {
                timestamp: self.ticks@[j].timestamp,
                price,
                volume: opened.volume,
                value: (price * opened.volume) as usize,
            }))
        }
    }

    /// The resting close orders of the opened positions, in their order.
    pub open spec fn scheduled_closes(&self, opened: Seq<(usize, Order)>) -> Seq<(usize, Order)>
        decreases opened.len(),
    {
        if opened.len() == 0 {
            Seq::empty()
        } else {
            let prior = self.scheduled_closes(opened.drop_last());
            match self.scheduled_close(opened.last().0 as int, opened.last().1) {
                Some(p) => prior.push(p),
                None => prior,
            }
        }
    }

    /// Schedules the resting close order of one opened position.
    pub fn schedule_close(&self, index: usize, opened: &Order) -> (r: Option<(usize, Order)>)
        requires
            self.wf(),
            opened.volume <= self.config.open_volume,
        ensures
            r == self.scheduled_close(index as int, *opened),
    {
        let deadline = (opened.timestamp as i128) + (self.config.limit_close_elapsed as i128);
        let mut k: usize = index;
        while k < self.ticks.len()
            invariant
                self.wf(),
                opened.volume <= self.config.open_volume,
                deadline == opened.timestamp + self.config.limit_close_elapsed,
                self.first_later(index as int, deadline as int) == self.first_later(k as int, deadline as int),
            decreases self.ticks.len() - k,
        {
            let tick = &self.ticks[k];
            if (tick.timestamp as i128) > deadline {
                match tick.get_first_ask_price() {
                    Some(price) => {
                        assert(self.ticks@[k as int].asks.len() > 0);
                        assert(price * opened.volume <= price * self.config.open_volume) by (nonlinear_arith)
                            requires opened.volume <= self.config.open_volume;
                        return Some((k, Order {
                            timestamp: tick.timestamp,
                            price,
                            volume: opened.volume,
                            value: price * opened.volume,
                        }));
                    },
                    None => {
                        return None;
                    },
                }
            }
            k = k + 1;
        }
        None
    }

    /// Decides whether snapshot `index` (which is `open_tick`) opens a
    /// position, given the time of the last open.
    pub fn open_trigger(&self, index: usize, open_tick: &Tick, last_open: Time) -> (r: bool)
        requires
            index < self.ticks.len(),
            *open_tick == self.ticks@[index as int],
        ensures
            r == self.triggers(index as int, last_open),
    {
        if !open_tick.in_trading_time()
            || (open_tick.timestamp as i128) - (last_open as i128) <= (self.config.open_min_interval as i128) {
            return false;
        }
        let threshold = self.config.rise_threshold;
        let mut k: usize = index;
        while k > 0
            invariant
                k <= index < self.ticks.len(),
                *open_tick == self.ticks@[index as int],
                threshold == self.config.rise_threshold,
                in_session(open_tick.timestamp as int),
                open_tick.timestamp - last_open > self.config.open_min_interval,
                self.in_window(k as int, index as int),
                forall|m: int| k <= m < index ==> !risen(#[trigger] self.ticks@[m].new_price, open_tick.new_price, threshold),
            decreases k,
        {
            let tick = &self.ticks[k - 1];
            if (open_tick.timestamp as i128) - (tick.timestamp as i128) > (self.config.rise_duration as i128) {
                assert forall|j: int| 0 <= j < index && #[trigger] risen(self.ticks@[j].new_price, open_tick.new_price, threshold)
                    implies !self.in_window(j, index as int) by {
                    if j < k {
                        assert(!(self.ticks@[index as int].timestamp - self.ticks@[k - 1].timestamp <= self.config.rise_duration));
                    }
                }
                return false;
            }
            if has_risen(tick.new_price, open_tick.new_price, threshold) {
                assert(self.in_window(k - 1, index as int));
                return true;
            }
            k = k - 1;
        }
        assert forall|j: int| 0 <= j < index && self.in_window(j, index as int)
            implies !#[trigger] risen(self.ticks@[j].new_price, open_tick.new_price, threshold) by {}
        false
    }

    /// Scans the snapshots in order and opens a position by market buy at
    /// each one that triggers.
    pub fn open_market_orders(&self) -> (r: Vec<(usize, Order)>)
        requires
            self.wf(),
        ensures
            r@ == self.opens(),
    {
        let mut market_open_orders: Vec<(usize, Order)> = Vec::new();
        let mut last_open: Time = 0;
        let mut index: usize = 0;
        while index < self.ticks.len()
            invariant
                self.wf(),
                index <= self.ticks.len(),
                (market_open_orders@, last_open) == self.opens_upto(index as nat),
            decreases self.ticks.len() - index,
        {
            let tick = &self.ticks[index];
            if self.open_trigger(index, tick, last_open) {
                let volume = self.config.open_volume;
                assert(self.ticks@[index as int].wf());
                match tick.handle_market_order(volume, Direction::Buy) {
                    Ok((price, value)) => {
                        market_open_orders.push((index, Order { timestamp: tick.timestamp, price, volume, value }));
                        last_open = tick.timestamp;
                    },
                    Err(_) => {},
                }
            }
            index = index + 1;
        }
        market_open_orders
    }

    /// Schedules a resting close order for each opened position, keeping
    /// the positions' order.
    pub fn close_limit_pending_orders(&self, market_open_orders: &Vec<(usize, Order)>) -> (r: Vec<(usize, Order)>)
        requires
            self.wf(),
            forall|k: int| 0 <= k < market_open_orders.len()
                ==> (#[trigger] market_open_orders@[k]).1.volume <= self.config.open_volume,
        ensures
            r@.to_multiset() == self.scheduled_closes(market_open_orders@).to_multiset(),
            forall|i: int, j: int| 0 <= i <= j < r.len() ==> r@[i].1.timestamp <= r@[j].1.timestamp,
    {
        let scheduled = schedule_all(self, market_open_orders);
        let mut pending: Vec<(usize, Order)> = Vec::new();
        let mut k: usize = 0;
        while k < scheduled.len()
            invariant
                k <= scheduled.len(),
                scheduled.len() == market_open_orders.len(),
                forall|i: int| 0 <= i < scheduled.len() ==> #[trigger] scheduled@[i]
                    == self.scheduled_close(market_open_orders@[i].0 as int, market_open_orders@[i].1),
                pending@ == self.scheduled_closes(market_open_orders@.take(k as int)),
            decreases scheduled.len() - k,
        {
            assert(market_open_orders@.take(k + 1).drop_last() =~= market_open_orders@.take(k as int));
            match scheduled[k] {
                Some(p) => {
                    pending.push(p);
                },
                None => {},
            }
            k = k + 1;
        }
        assert(market_open_orders@.take(k as int) =~= market_open_orders@);
        sort_pending_by_time(&mut pending);
        pending
    }

    /// First trade at or after `j` later than `t`; the number of trades
    /// when there is none.
    pub open spec fn first_trade_from(&self, j: int, t: Time) -> int
        decreases self.transactions.len() - j,
    {
        if j >= self.transactions.len() {
            self.transactions.len() as int
        } else if self.transactions@[j].timestamp > t {
            j
        } else {
            self.first_trade_from(j + 1, t)
        }
    }

    /// The resting fills that trades `j`, `j + 1`, ... (all earlier than
    /// `end`) make of a resting sell of `current` shares at `price` on the
    /// book of snapshot `k`, with the volume left afterwards.
    pub open spec fn passive_run(&self, k: int, price: Price, j: int, end: Time, current: nat) -> (Seq<Order>, nat)
        decreases self.transactions.len() - j,
    {
        if j < 0 || j >= self.transactions.len() || current == 0 || self.transactions@[j].timestamp >= end {
            (Seq::empty(), current)
        } else {
            let trx = self.transactions@[j];
            let rest = self.ticks@[k].limit_rest(price, current as usize, Direction::Sell, trx);
            if rest < current {
                let volume = (current - rest) as nat;
                let fill = Order {
                    timestamp: trx.timestamp,
                    price,
                    volume: volume as usize,
                    value: after_fee(price * volume, self.config.passive_fee_ratio) as usize,
                };
                let (fills, left) = self.passive_run(k, price, j + 1, end, rest as nat);
                (seq![fill] + fills, left)
            } else {
                self.passive_run(k, price, j + 1, end, current)
            }
        }
    }

    /// The market sell of `volume` shares at snapshot `k`.
    pub open spec fn active_order(&self, k: int, volume: nat) -> Order {
        let t = self.ticks@[k];
        let v = fill_value(t.bids@, volume);
        Order {
            timestamp: t.timestamp,
            price: (v / volume) as usize,
            volume: volume as usize,
            value: after_fee(v as int, self.config.active_fee_ratio) as usize,
        }
    }

    /// The fills of the close order `pending` from snapshot `k` on, with
    /// `current` shares still to sell: at a snapshot past the waiting
    /// deadline and in a session, the rest is sold at market; otherwise the
    /// trades up to the next snapshot may fill it; at the last snapshot, or
    /// once nothing is left, it ends.
    pub open spec fn close_run(&self, pending: Order, k: int, current: nat) -> (Option<Order>, Seq<Order>)
        decreases self.ticks.len() - k,
    {
        if k < 0 || k >= self.ticks.len() || current == 0 {
            (None, Seq::empty())
        } else {
            let t = self.ticks@[k];
            if t.timestamp > pending.timestamp + self.config.close_waiting_elapsed && in_session(t.timestamp as int) {
                (Some(self.active_order(k, current)), Seq::empty())
            } else if k + 1 >= self.ticks.len() {
                (None, Seq::empty())
            } else {
                let start = self.first_trade_from(0, t.timestamp);
                let (fills, left) = self.passive_run(k, pending.price, start, self.ticks@[k + 1].timestamp, current);
                let (active, later) = self.close_run(pending, k + 1, left);
                (active, fills + later)
            }
        }
    }

    /// Index of the first trade later than `t`, found by binary search
    /// over the time-ordered tape.
    pub fn first_trade_after(&self, t: Time) -> (r: usize)
        ensures
            r <= self.transactions.len(),
            self.transactions_sorted() ==> forall|k: int| 0 <= k < r ==> #[trigger] self.transactions@[k].timestamp <= t,
            self.transactions_sorted() ==> forall|k: int| r <= k < self.transactions.len()
                ==> #[trigger] self.transactions@[k].timestamp > t,
            self.transactions_sorted() ==> r == self.first_trade_from(0, t),
    {
        let mut lo: usize = 0;
        let mut hi: usize = self.transactions.len();
        while lo < hi
            invariant
                lo <= hi <= self.transactions.len(),
                self.transactions_sorted() ==> forall|k: int| 0 <= k < lo ==> #[trigger] self.transactions@[k].timestamp <= t,
                self.transactions_sorted() ==> forall|k: int| hi <= k < self.transactions.len()
                    ==> #[trigger] self.transactions@[k].timestamp > t,
            decreases hi - lo,
        {
            let mid = lo + (hi - lo) / 2;
            if self.transactions[mid].timestamp <= t {
                lo = mid + 1;
            } else {
                hi = mid;
            }
        }
        proof {
            if self.transactions_sorted() {
                lemma_first_trade_from(self, 0, lo as int, t);
            }
        }
        lo
    }

    /// Whether `a` is a market close made at snapshot `k` (at or after
    /// `index`) once the close order `pending` had waited too long.
    pub open spec fn is_active_close(&self, index: int, pending: Order, a: Order, k: int) -> bool {
        let t = self.ticks@[k];
        &&& index <= k < self.ticks.len()
        &&& t.timestamp > pending.timestamp + self.config.close_waiting_elapsed
        &&& in_session(t.timestamp as int)
        &&& a.timestamp == t.timestamp
        &&& a.value == after_fee(fill_value(t.bids@, a.volume as nat) as int, self.config.active_fee_ratio)
        &&& a.price == fill_value(t.bids@, a.volume as nat) / (a.volume as nat)
    }

    /// Whether `p` is a resting fill of the close order `pending` made by
    /// a trade of the tape.
    pub open spec fn is_passive_fill(&self, pending: Order, p: Order) -> bool {
        &&& p.price == pending.price
        &&& p.volume > 0
        &&& p.value == after_fee(p.price * p.volume, self.config.passive_fee_ratio)
        &&& self.is_trade_time(p.timestamp)
    }

    /// Whether `a` is the market close of one of the `pending` close orders.
    pub open spec fn active_close_of(&self, pending: Seq<(usize, Order)>, a: Order) -> bool {
        exists|k: int, kk: int| 0 <= k < pending.len() && #[trigger] self.is_active_close(pending[k].0 as int, pending[k].1, a, kk)
    }

    /// Whether `p` is a resting fill of one of the `pending` close orders.
    pub open spec fn passive_fill_of(&self, pending: Seq<(usize, Order)>, p: Order) -> bool {
        exists|k: int| 0 <= k < pending.len() && #[trigger] self.is_passive_fill(pending[k].1, p)
    }

    /// Whether some trade of the tape happened at `t`.
    pub open spec fn is_trade_time(&self, t: Time) -> bool {
        exists|j: int| 0 <= j < self.transactions.len() && #[trigger] self.transactions@[j].timestamp == t
    }

    /// Runs the close order `pending`, placed at snapshot `index`: between
    /// each snapshot and the next, every trade of the tape in that span may
    /// fill part of it at its price; once a snapshot is later than the
    /// waiting deadline and in a session, the rest is sold at market there.
    /// Returns the market fill, if any, and the resting fills in order.
    pub fn close_order(&self, index: usize, pending: &Order) -> (r: (Option<Order>, Vec<Order>))
        requires
            self.wf(),
            pending.volume <= self.config.open_volume,
            pending.price * pending.volume <= usize::MAX,
        ensures
            sum_volumes(r.1@) <= pending.volume,
            forall|k: int| 0 <= k < r.1.len() ==> self.is_passive_fill(*pending, #[trigger] r.1@[k]),
            r.0 matches Some(a) ==> {
                &&& sum_volumes(r.1@) + a.volume == pending.volume
                &&& exists|k: int| self.is_active_close(index as int, *pending, a, k)
            },
            self.transactions_sorted() ==> r.0 == self.close_run(*pending, index as int, pending.volume as nat).0,
            self.transactions_sorted() ==> r.1@ == self.close_run(*pending, index as int, pending.volume as nat).1,
    {
        let ghost sorted = self.transactions_sorted();
        let ghost whole = self.close_run(*pending, index as int, pending.volume as nat);
        let fee = self.config.passive_fee_ratio;
        let deadline = (pending.timestamp as i128) + (self.config.close_waiting_elapsed as i128);
        let mut current_volume = pending.volume;
        let mut active: Option<Order> = None;
        let mut passive: Vec<Order> = Vec::new();
        let mut k: usize = index;
        let mut finished = false;
        while k < self.ticks.len() && current_volume > 0 && !finished
            invariant
                self.wf(),
                index <= k,
                pending.volume <= self.config.open_volume,
                pending.price * pending.volume <= usize::MAX,
                fee == self.config.passive_fee_ratio,
                deadline == pending.timestamp + self.config.close_waiting_elapsed,
                sum_volumes(passive@) + current_volume == pending.volume,
                forall|i: int| 0 <= i < passive.len() ==> self.is_passive_fill(*pending, #[trigger] passive@[i]),
                !finished ==> active is None,
                sorted == self.transactions_sorted(),
                whole == self.close_run(*pending, index as int, pending.volume as nat),
                sorted && !finished ==> whole == (self.close_run(*pending, k as int, current_volume as nat).0,
                    passive@ + self.close_run(*pending, k as int, current_volume as nat).1),
                sorted && finished ==> whole == (active, passive@),
                active matches Some(a) ==> {
                    &&& a.volume == current_volume
                    &&& exists|kk: int| self.is_active_close(index as int, *pending, a, kk)
                },
            decreases self.ticks.len() - k + (if finished { 0int } else { 1int }),
        {
            let tick = &self.ticks[k];
            assert(self.ticks@[k as int].wf());
            if (tick.timestamp as i128) > deadline {
                match tick.handle_market_order(current_volume, Direction::Sell) {
                    Ok((price, value)) => {
                        proof {
                            crate::ladder::lemma_fill_value_le_notional(tick.bids@, current_volume as nat);
                        }
                        let a = Order {
                            timestamp: tick.timestamp,
                            price,
                            volume: current_volume,
                            value: apply_fee(value, self.config.active_fee_ratio),
                        };
                        assert(self.is_active_close(index as int, *pending, a, k as int));
                        assert(exists|kk: int| self.is_active_close(index as int, *pending, a, kk));
                        proof {
                            if sorted {
                                assert(a == self.active_order(k as int, current_volume as nat));
                                assert(passive@ + Seq::<Order>::empty() =~= passive@);
                            }
                        }
                        active = Some(a);
                        finished = true;
                        assert(active matches Some(a) ==> a.volume == current_volume);
                    },
                    Err(_) => {},
                }
            }
            if !finished {
                if k + 1 < self.ticks.len() {
                    let next_timestamp = self.ticks[k + 1].timestamp;
                    let mut j = self.first_trade_after(tick.timestamp);
                    let ghost j0 = j as int;
                    let ghost c0 = current_volume as nat;
                    let ghost outer = passive@;
                    assert(outer + self.passive_run(k as int, pending.price, j0, next_timestamp, c0).0
                        =~= passive@ + self.passive_run(k as int, pending.price, j as int, next_timestamp, current_volume as nat).0);
                    while j < self.transactions.len() && current_volume > 0
                        && self.transactions[j].timestamp < next_timestamp
                        invariant
                            self.wf(),
                            k < self.ticks.len(),
                            *tick == self.ticks@[k as int],
                            j <= self.transactions.len(),
                            pending.volume <= self.config.open_volume,
                            pending.price * pending.volume <= usize::MAX,
                            fee == self.config.passive_fee_ratio,
                            sum_volumes(passive@) + current_volume == pending.volume,
                            forall|i: int| 0 <= i < passive.len() ==> self.is_passive_fill(*pending, #[trigger] passive@[i]),
                            next_timestamp == self.ticks@[k + 1].timestamp,
                            outer + self.passive_run(k as int, pending.price, j0, next_timestamp, c0).0
                                == passive@ + self.passive_run(k as int, pending.price, j as int, next_timestamp, current_volume as nat).0,
                            self.passive_run(k as int, pending.price, j0, next_timestamp, c0).1
                                == self.passive_run(k as int, pending.price, j as int, next_timestamp, current_volume as nat).1,
                        decreases self.transactions.len() - j,
                    {
                        let transaction = &self.transactions[j];
                        assert(room_for(self.ticks@[k as int].bids@, current_volume)) by {
                            assert(room_for(self.ticks@[k as int].bids@, self.config.open_volume));
                        }
                        let rest_volume = tick.handle_limit_order_by_transaction(
                            pending.price,
                            current_volume,
                            Direction::Sell,
                            transaction,
                        );
                        if rest_volume < current_volume {
                            let volume = current_volume - rest_volume;
                            assert(pending.price * volume <= pending.price * pending.volume) by (nonlinear_arith)
                                requires volume <= pending.volume;
                            let p = Order {
                                timestamp: transaction.timestamp,
                                price: pending.price,
                                volume,
                                value: apply_fee(pending.price * volume, fee),
                            };
                            assert(self.transactions@[j as int].timestamp == p.timestamp);
                            let ghost before = passive@;
                            passive.push(p);
                            assert(passive@.drop_last() =~= before);
                            assert(p == self.passive_run(k as int, pending.price, j as int, next_timestamp, current_volume as nat).0[0]);
                            assert(before + self.passive_run(k as int, pending.price, j as int, next_timestamp, current_volume as nat).0
                                =~= passive@ + self.passive_run(k as int, pending.price, j + 1, next_timestamp, rest_volume as nat).0);
                            current_volume = rest_volume;
                        }
                        j = j + 1;
                    }
                    proof {
                        if sorted {
                            let fills = self.passive_run(k as int, pending.price, j0, next_timestamp, c0);
                            assert(passive@ =~= outer + fills.0);
                            let later = self.close_run(*pending, k + 1, current_volume as nat);
                            assert(self.close_run(*pending, k as int, c0) == (later.0, fills.0 + later.1));
                            assert(outer + (fills.0 + later.1) =~= passive@ + later.1);
                        }
                    }
                    assert(active is None);
                    k = k + 1;
                } else {
                    assert(passive@ + Seq::<Order>::empty() =~= passive@);
                    finished = true;
                }
            }
        }
        proof {
            if sorted && !finished {
                assert(passive@ + Seq::<Order>::empty() =~= passive@);
            }
        }
        (active, passive)
    }

    /// Runs every scheduled close order, each on its own, and gathers the
    /// market fills and the resting fills, each list in time order.
    pub fn close_all_orders(&self, pending_orders: &Vec<(usize, Order)>) -> (r: (Vec<Order>, Vec<Order>))
        requires
            self.wf(),
            forall|k: int| 0 <= k < pending_orders.len() ==> closable(*self, #[trigger] pending_orders@[k].1),
        ensures
            r.0.len() <= pending_orders.len(),
            pending_orders.len() == 0 ==> r.1.len() == 0,
            forall|i: int| 0 <= i < r.0.len() ==> in_session((#[trigger] r.0@[i]).timestamp as int),
            forall|i: int| 0 <= i < r.1.len() ==> self.is_trade_time(#[trigger] r.1@[i].timestamp),
            forall|i: int| 0 <= i < r.0.len() ==> self.active_close_of(pending_orders@, #[trigger] r.0@[i]),
            forall|i: int| 0 <= i < r.1.len() ==> self.passive_fill_of(pending_orders@, #[trigger] r.1@[i]),
            forall|i: int, j: int| 0 <= i <= j < r.0.len() ==> r.0@[i].timestamp <= r.0@[j].timestamp,
            forall|i: int, j: int| 0 <= i <= j < r.1.len() ==> r.1@[i].timestamp <= r.1@[j].timestamp,
            self.transactions_sorted() ==> r.0@.to_multiset() == active_fills(*self, pending_orders@).to_multiset(),
            self.transactions_sorted() ==> r.1@.to_multiset() == passive_fills(*self, pending_orders@).to_multiset(),
    {
        let outcomes = close_each(self, pending_orders);
        let mut active_traded_orders: Vec<Order> = Vec::new();
        let mut passive_traded_orders: Vec<Order> = Vec::new();
        let mut k: usize = 0;
        while k < outcomes.len()
            invariant
                k <= outcomes.len(),
                outcomes.len() == pending_orders.len(),
                forall|i: int| 0 <= i < outcomes.len() ==> #[trigger] closed_well(*self, pending_orders@[i], outcomes@[i]),
                active_traded_orders.len() <= k,
                k == 0 ==> passive_traded_orders.len() == 0,
                self.transactions_sorted() ==> active_traded_orders@ == active_fills(*self, pending_orders@.take(k as int)),
                self.transactions_sorted() ==> passive_traded_orders@ == passive_fills(*self, pending_orders@.take(k as int)),
                forall|i: int| 0 <= i < active_traded_orders.len() ==> in_session((#[trigger] active_traded_orders@[i]).timestamp as int),
                forall|i: int| 0 <= i < passive_traded_orders.len() ==> self.is_trade_time(#[trigger] passive_traded_orders@[i].timestamp),
                forall|i: int| 0 <= i < active_traded_orders.len() ==> self.active_close_of(pending_orders@, #[trigger] active_traded_orders@[i]),
                forall|i: int| 0 <= i < passive_traded_orders.len() ==> self.passive_fill_of(pending_orders@, #[trigger] passive_traded_orders@[i]),
            decreases outcomes.len() - k,
        {
            let (active, passive) = &outcomes[k];
            assert(closed_well(*self, pending_orders@[k as int], outcomes@[k as int]));
            assert(pending_orders@.take(k + 1).drop_last() =~= pending_orders@.take(k as int));
            let ghost passive_before = passive_traded_orders@;
            match active {
                Some(a) => {
                    proof {
                        let kk = choose|kk: int| self.is_active_close(pending_orders@[k as int].0 as int, pending_orders@[k as int].1, *a, kk);
                        assert(in_session(self.ticks@[kk].timestamp as int));
                        assert(self.is_active_close(pending_orders@[k as int].0 as int, pending_orders@[k as int].1, *a, kk));
                        assert(self.active_close_of(pending_orders@, *a));
                    }
                    active_traded_orders.push(*a);
                },
                None => {},
            }
            let mut m: usize = 0;
            while m < passive.len()
                invariant
                    m <= passive.len(),
                    forall|i: int| 0 <= i < passive.len() ==> self.is_passive_fill(pending_orders@[k as int].1, #[trigger] passive@[i]),
                    forall|i: int| 0 <= i < passive_traded_orders.len() ==> self.is_trade_time(#[trigger] passive_traded_orders@[i].timestamp),
                    forall|i: int| 0 <= i < passive_traded_orders.len() ==> self.passive_fill_of(pending_orders@, #[trigger] passive_traded_orders@[i]),
                    k < pending_orders.len(),
                    passive_traded_orders@ == passive_before + passive@.take(m as int),
                decreases passive.len() - m,
            {
                assert(passive_before + passive@.take(m + 1) =~= (passive_before + passive@.take(m as int)).push(passive@[m as int]));
                assert(self.is_passive_fill(pending_orders@[k as int].1, passive@[m as int]));
                assert(self.passive_fill_of(pending_orders@, passive@[m as int]));
                passive_traded_orders.push(passive[m]);
                m = m + 1;
            }
            assert(passive@.take(m as int) =~= passive@);
            k = k + 1;
        }
        assert(pending_orders@.take(k as int) =~= pending_orders@);
        let ghost active_before = active_traded_orders@;
        let ghost passive_before = passive_traded_orders@;
        sort_by_time(&mut active_traded_orders);
        sort_by_time(&mut passive_traded_orders);
        proof {
            active_before.to_multiset_ensures();
            active_traded_orders@.to_multiset_ensures();
            passive_before.to_multiset_ensures();
            passive_traded_orders@.to_multiset_ensures();
            assert forall|i: int| 0 <= i < active_traded_orders.len() implies in_session((#[trigger] active_traded_orders@[i]).timestamp as int) by {
                assert(active_traded_orders@.contains(active_traded_orders@[i]));
                assert(active_traded_orders@.to_multiset().count(active_traded_orders@[i]) > 0);
                assert(active_before.to_multiset().count(active_traded_orders@[i]) > 0);
                assert(active_before.contains(active_traded_orders@[i]));
            }
            assert forall|i: int| 0 <= i < active_traded_orders.len() implies self.active_close_of(pending_orders@, #[trigger] active_traded_orders@[i]) by {
                assert(active_traded_orders@.contains(active_traded_orders@[i]));
                assert(active_traded_orders@.to_multiset().count(active_traded_orders@[i]) > 0);
                assert(active_before.to_multiset().count(active_traded_orders@[i]) > 0);
                assert(active_before.contains(active_traded_orders@[i]));
            }
            assert forall|i: int| 0 <= i < passive_traded_orders.len() implies self.is_trade_time(#[trigger] passive_traded_orders@[i].timestamp) by {
                assert(passive_traded_orders@.contains(passive_traded_orders@[i]));
                assert(passive_traded_orders@.to_multiset().count(passive_traded_orders@[i]) > 0);
                assert(passive_before.to_multiset().count(passive_traded_orders@[i]) > 0);
                assert(passive_before.contains(passive_traded_orders@[i]));
            }
            assert forall|i: int| 0 <= i < passive_traded_orders.len() implies self.passive_fill_of(pending_orders@, #[trigger] passive_traded_orders@[i]) by {
                assert(passive_traded_orders@.contains(passive_traded_orders@[i]));
                assert(passive_traded_orders@.to_multiset().count(passive_traded_orders@[i]) > 0);
                assert(passive_before.to_multiset().count(passive_traded_orders@[i]) > 0);
                assert(passive_before.contains(passive_traded_orders@[i]));
            }
        }
        (active_traded_orders, passive_traded_orders)
    }

    /// Runs the whole simulation: opens, scheduling of the resting close
    /// orders, their execution, and the totals. The close totals are pinned
    /// down for a tape in time order, which binary search needs.
    pub fn process(&self) -> (r: StrategyResult)
        requires
            self.wf(),
        ensures
            r.open_times == self.opens().len(),
            r.open_value == sum_values(open_orders_of(self.opens())),
            r.close_active_traded_times <= self.scheduled_closes(self.opens()).len(),
            self.scheduled_closes(self.opens()).len() == 0 ==> r.close_passive_traded_times == 0,
            r.open_times == 0 ==> r.open_value == 0,
            r.close_active_traded_times == 0 ==> r.close_active_traded_value == 0,
            r.close_passive_traded_times == 0 ==> r.close_passive_traded_value == 0,
            self.transactions_sorted() ==> r.close_active_traded_times
                == active_fills(*self, self.scheduled_closes(self.opens())).len(),
            self.transactions_sorted() ==> r.close_active_traded_value
                == sum_values(active_fills(*self, self.scheduled_closes(self.opens()))),
            self.transactions_sorted() ==> r.close_passive_traded_times
                == passive_fills(*self, self.scheduled_closes(self.opens())).len(),
            self.transactions_sorted() ==> r.close_passive_traded_value
                == sum_values(passive_fills(*self, self.scheduled_closes(self.opens()))),
    {
        let market_open_orders = self.open_market_orders();
        proof {
            lemma_opens_shape(self, self.ticks.len() as nat);
        }
        let pending_orders = self.close_limit_pending_orders(&market_open_orders);
        let ghost scheduled = self.scheduled_closes(market_open_orders@);
        proof {
            lemma_scheduled_closable(self, market_open_orders@);
            pending_orders@.to_multiset_ensures();
            scheduled.to_multiset_ensures();
            assert forall|k: int| 0 <= k < pending_orders.len() implies closable(*self, #[trigger] pending_orders@[k].1) by {
                assert(pending_orders@.contains(pending_orders@[k]));
                assert(pending_orders@.to_multiset().count(pending_orders@[k]) > 0);
                assert(scheduled.contains(pending_orders@[k]));
            }
            lemma_fills_permutation(*self, pending_orders@, scheduled);
            active_fills(*self, scheduled).to_multiset_ensures();
            passive_fills(*self, scheduled).to_multiset_ensures();
        }
        let (active_traded_orders, passive_traded_orders) = self.close_all_orders(&pending_orders);
        proof {
            if self.transactions_sorted() {
                let actives = active_fills(*self, pending_orders@);
                let passives = passive_fills(*self, pending_orders@);
                active_traded_orders@.to_multiset_ensures();
                actives.to_multiset_ensures();
                passive_traded_orders@.to_multiset_ensures();
                passives.to_multiset_ensures();
                lemma_sum_values_permutation(active_traded_orders@, active_fills(*self, scheduled));
                lemma_sum_values_permutation(passive_traded_orders@, passive_fills(*self, scheduled));
            }
        }
        StrategyResult::new(&market_open_orders, &active_traded_orders, &passive_traded_orders)
    }
}

/// Counts and total values of the opens and of the two kinds of close
/// fills. The yield rate is `(active value + passive value - open value) /
/// open value`; it is undefined when nothing was opened.
#[derive(Debug, Clone, Copy, PartialEq, Eq, Structural)]
pub struct StrategyResult {
    pub open_times: usize,
    pub open_value: u128,
    pub close_active_traded_times: usize,
    pub close_active_traded_value: u128,
    pub close_passive_traded_times: usize,
    pub close_passive_traded_value: u128,
}

/// The orders of a list of opened positions.
pub open spec fn open_orders_of(opened: Seq<(usize, Order)>) -> Seq<Order> {
    opened.map_values(|p: (usize, Order)| p.1)
}

proof fn lemma_sum_values_bound(orders: Seq<Order>)
    ensures
        sum_values(orders) <= orders.len() * usize::MAX,
    decreases orders.len(),
{
    if orders.len() > 0 {
        lemma_sum_values_bound(orders.drop_last());
    }
}

proof fn lemma_sum_values_remove(s: Seq<Order>, i: int)
    requires
        0 <= i < s.len(),
    ensures
        sum_values(s) == sum_values(s.remove(i)) + s[i].value,
    decreases s.len(),
{
    if i == s.len() - 1 {
        assert(s.remove(i) =~= s.drop_last());
    } else {
        lemma_sum_values_remove(s.drop_last(), i);
        assert(s.remove(i).drop_last() =~= s.drop_last().remove(i));
        assert(s.remove(i).last() == s.last());
    }
}

/// The same orders in any order have the same total value.
pub proof fn lemma_sum_values_permutation(s1: Seq<Order>, s2: Seq<Order>)
    requires
        s1.to_multiset() == s2.to_multiset(),
    ensures
        sum_values(s1) == sum_values(s2),
    decreases s1.len(),
{
    s1.to_multiset_ensures();
    s2.to_multiset_ensures();
    if s1.len() == 0 {
        assert(s2.len() == 0);
    } else {
        let x = s1.last();
        let rest = s1.drop_last();
        rest.to_multiset_ensures();
        assert(rest.push(x) =~= s1);
        assert(s1.contains(x));
        assert(s2.to_multiset().count(x) > 0);
        assert(s2.contains(x));
        let i = choose|i: int| 0 <= i < s2.len() && s2[i] == x;
        assert(s2.remove(i).to_multiset() =~= s2.to_multiset().remove(x));
        assert(rest.to_multiset().insert(x).remove(x) =~= rest.to_multiset());
        lemma_sum_values_permutation(rest, s2.remove(i));
        lemma_sum_values_remove(s2, i);
    }
}

/// Sum of the values of the orders.
pub fn total_value(orders: &Vec<Order>) -> (r: u128)
    ensures
        r == sum_values(orders@),
{
    let mut total: u128 = 0;
    let mut i: usize = 0;
    while i < orders.len()
        invariant
            i <= orders.len(),
            total == sum_values(orders@.take(i as int)),
        decreases orders.len() - i,
    {
        proof {
            assert(orders@.take(i + 1).drop_last() =~= orders@.take(i as int));
            lemma_sum_values_bound(orders@.take(i as int));
            assert(total + orders@[i as int].value <= u128::MAX) by (nonlinear_arith)
                requires total <= i * usize::MAX, i < usize::MAX, orders@[i as int].value <= usize::MAX;
        }
        total = total + orders[i].value as u128;
        i = i + 1;
    }
    assert(orders@.take(i as int) =~= orders@);
    total
}

impl StrategyResult {
    /// Counts and totals of the given opens, market closes and resting
    /// closes.
    pub fn new(open_orders: &Vec<(usize, Order)>, active_traded_orders: &Vec<Order>, passive_traded_orders: &Vec<Order>) -> (r: StrategyResult)
        ensures
            r.open_times == open_orders.len(),
            r.open_value == sum_values(open_orders_of(open_orders@)),
            r.close_active_traded_times == active_traded_orders.len(),
            r.close_active_traded_value == sum_values(active_traded_orders@),
            r.close_passive_traded_times == passive_traded_orders.len(),
            r.close_passive_traded_value == sum_values(passive_traded_orders@),
    {
        let mut opens: Vec<Order> = Vec::new();
        let mut i: usize = 0;
        while i < open_orders.len()
            invariant
                i <= open_orders.len(),
                opens@ == open_orders_of(open_orders@.take(i as int)),
            decreases open_orders.len() - i,
        {
            opens.push(open_orders[i].1);
            assert(opens@ =~= open_orders_of(open_orders@.take(i + 1)));
            i = i + 1;
        }
        assert(open_orders@.take(i as int) =~= open_orders@);
        StrategyResult {
            open_times: open_orders.len(),
            open_value: total_value(&opens),
            close_active_traded_times: active_traded_orders.len(),
            close_active_traded_value: total_value(active_traded_orders),
            close_passive_traded_times: passive_traded_orders.len(),
            close_passive_traded_value: total_value(passive_traded_orders),
        }
    }
}

proof fn lemma_first_trade_from(ctx: &StrategyContext, j: int, r: int, t: Time)
    requires
        0 <= j <= r <= ctx.transactions.len(),
        forall|k: int| 0 <= k < r ==> #[trigger] ctx.transactions@[k].timestamp <= t,
        forall|k: int| r <= k < ctx.transactions.len() ==> #[trigger] ctx.transactions@[k].timestamp > t,
    ensures
        ctx.first_trade_from(j, t) == r,
    decreases r - j,
{
    if j < r {
        lemma_first_trade_from(ctx, j + 1, r, t);
    }
}

proof fn lemma_scheduled_closable(ctx: &StrategyContext, opened: Seq<(usize, Order)>)
    requires
        ctx.wf(),
        forall|k: int| 0 <= k < opened.len() ==> (#[trigger] opened[k]).1.volume == ctx.config.open_volume,
    ensures
        forall|k: int| 0 <= k < ctx.scheduled_closes(opened).len()
            ==> closable(*ctx, #[trigger] ctx.scheduled_closes(opened)[k].1),
    decreases opened.len(),
{
    if opened.len() > 0 {
        let prior = opened.drop_last();
        assert forall|k: int| 0 <= k < prior.len() implies (#[trigger] prior[k]).1.volume == ctx.config.open_volume by {
            assert(prior[k] == opened[k]);
        }
        lemma_scheduled_closable(ctx, prior);
        let last = opened.last();
        let j = ctx.first_later(last.0 as int, last.1.timestamp + ctx.config.limit_close_elapsed);
        if j < ctx.ticks.len() && ctx.ticks@[j].asks.len() > 0 {
            lemma_first_later_bound(ctx, last.0 as int, last.1.timestamp + ctx.config.limit_close_elapsed);
            assert(ctx.ticks@[j].asks@[0].0 * ctx.config.open_volume <= usize::MAX);
            assert(last == opened[opened.len() - 1]);
            let p = ctx.scheduled_close(last.0 as int, last.1).unwrap();
            assert(closable(*ctx, p.1));
            let s = ctx.scheduled_closes(opened);
            assert(s == ctx.scheduled_closes(prior).push(p));
            assert forall|k: int| 0 <= k < s.len() implies closable(*ctx, #[trigger] s[k].1) by {
                if k < s.len() - 1 {
                    assert(s[k] == ctx.scheduled_closes(prior)[k]);
                }
            }
        }
    }
}

proof fn lemma_first_later_bound(ctx: &StrategyContext, k: int, deadline: int)
    requires
        k >= 0,
    ensures
        ctx.first_later(k, deadline) >= 0,
    decreases ctx.ticks.len() - k,
{
    if k < ctx.ticks.len() && ctx.ticks@[k].timestamp <= deadline {
        lemma_first_later_bound(ctx, k + 1, deadline);
    }
}

/// A scheduled close order that the close simulation can run: at most one
/// configured position, whose notional fits in `usize`.
pub open spec fn closable(ctx: StrategyContext, pending: Order) -> bool {
    &&& pending.volume <= ctx.config.open_volume
    &&& pending.price * pending.volume <= usize::MAX
}

/// What `close_order` promises of the outcome of the close order placed at
/// snapshot `p.0`.
pub open spec fn closed_well(ctx: StrategyContext, p: (usize, Order), r: (Option<Order>, Vec<Order>)) -> bool {
    &&& sum_volumes(r.1@) <= p.1.volume
    &&& forall|k: int| 0 <= k < r.1.len() ==> ctx.is_passive_fill(p.1, #[trigger] r.1@[k])
    &&& r.0 matches Some(a) ==> {
        &&& sum_volumes(r.1@) + a.volume == p.1.volume
        &&& exists|k: int| ctx.is_active_close(p.0 as int, p.1, a, k)
    }
    &&& ctx.transactions_sorted() ==> r.0 == ctx.close_run(p.1, p.0 as int, p.1.volume as nat).0
    &&& ctx.transactions_sorted() ==> r.1@ == ctx.close_run(p.1, p.0 as int, p.1.volume as nat).1
}

/// The market fills of the scheduled close orders, in their order.
pub open spec fn active_fills(ctx: StrategyContext, pending: Seq<(usize, Order)>) -> Seq<Order>
    decreases pending.len(),
{
    if pending.len() == 0 {
        Seq::empty()
    } else {
        let prior = active_fills(ctx, pending.drop_last());
        let p = pending.last();
        match ctx.close_run(p.1, p.0 as int, p.1.volume as nat).0 {
            Some(a) => prior.push(a),
            None => prior,
        }
    }
}

/// The resting fills of the scheduled close orders, in their order.
pub open spec fn passive_fills(ctx: StrategyContext, pending: Seq<(usize, Order)>) -> Seq<Order>
    decreases pending.len(),
{
    if pending.len() == 0 {
        Seq::empty()
    } else {
        let p = pending.last();
        passive_fills(ctx, pending.drop_last()) + ctx.close_run(p.1, p.0 as int, p.1.volume as nat).1
    }
}

/// Relies on rayon's `par_iter().map(..).collect()` into a `Vec`, which
/// applies the function to every item and keeps the items' order.
#[verifier::external_body]
fn close_each(ctx: &StrategyContext, pending: &Vec<(usize, Order)>) -> (r: Vec<(Option<Order>, Vec<Order>)>)
    requires
        ctx.wf(),
        forall|k: int| 0 <= k < pending.len() ==> closable(*ctx, #[trigger] pending@[k].1),
    ensures
        r.len() == pending.len(),
        forall|k: int| 0 <= k < pending.len() ==> #[trigger] closed_well(*ctx, pending@[k], r@[k]),
{
    pending.par_iter().map(|(index, order)| ctx.close_order(*index, order)).collect()
}

/// Relies on `slice::sort_by_key`: the same orders, by ascending time.
#[verifier::external_body]
fn sort_by_time(orders: &mut Vec<Order>)
    ensures
        final(orders)@.to_multiset() == old(orders)@.to_multiset(),
        forall|i: int, j: int| 0 <= i <= j < final(orders).len() ==> final(orders)@[i].timestamp <= final(orders)@[j].timestamp,
{
    orders.sort_by_key(|order| order.timestamp)
}

/// Relies on `slice::sort_by_key`: the same scheduled orders, by ascending
/// time.
#[verifier::external_body]
fn sort_pending_by_time(pending: &mut Vec<(usize, Order)>)
    ensures
        final(pending)@.to_multiset() == old(pending)@.to_multiset(),
        forall|i: int, j: int| 0 <= i <= j < final(pending).len()
            ==> final(pending)@[i].1.timestamp <= final(pending)@[j].1.timestamp,
{
    pending.sort_by_key(|p| p.1.timestamp)
}

/// The market fill of one scheduled close order, as a multiset.
pub open spec fn active_part(ctx: StrategyContext, p: (usize, Order)) -> Multiset<Order> {
    match ctx.close_run(p.1, p.0 as int, p.1.volume as nat).0 {
        Some(a) => Multiset::singleton(a),
        None => Multiset::empty(),
    }
}

/// The resting fills of one scheduled close order, as a multiset.
pub open spec fn passive_part(ctx: StrategyContext, p: (usize, Order)) -> Multiset<Order> {
    ctx.close_run(p.1, p.0 as int, p.1.volume as nat).1.to_multiset()
}

proof fn lemma_fills_last(ctx: StrategyContext, pending: Seq<(usize, Order)>)
    requires
        pending.len() > 0,
    ensures
        active_fills(ctx, pending).to_multiset()
            =~= active_fills(ctx, pending.drop_last()).to_multiset().add(active_part(ctx, pending.last())),
        passive_fills(ctx, pending).to_multiset()
            =~= passive_fills(ctx, pending.drop_last()).to_multiset().add(passive_part(ctx, pending.last())),
{
    let p = pending.last();
    let prior = active_fills(ctx, pending.drop_last());
    prior.to_multiset_ensures();
    match ctx.close_run(p.1, p.0 as int, p.1.volume as nat).0 {
        Some(a) => {
            assert(prior.to_multiset().insert(a) =~= prior.to_multiset().add(Multiset::singleton(a)));
        },
        None => {
            assert(prior.to_multiset() =~= prior.to_multiset().add(Multiset::empty()));
        },
    }
    vstd::seq_lib::lemma_multiset_commutative(
        passive_fills(ctx, pending.drop_last()),
        ctx.close_run(p.1, p.0 as int, p.1.volume as nat).1,
    );
}

proof fn lemma_fills_remove(ctx: StrategyContext, pending: Seq<(usize, Order)>, i: int)
    requires
        0 <= i < pending.len(),
    ensures
        active_fills(ctx, pending).to_multiset()
            =~= active_fills(ctx, pending.remove(i)).to_multiset().add(active_part(ctx, pending[i])),
        passive_fills(ctx, pending).to_multiset()
            =~= passive_fills(ctx, pending.remove(i)).to_multiset().add(passive_part(ctx, pending[i])),
    decreases pending.len(),
{
    lemma_fills_last(ctx, pending);
    if i == pending.len() - 1 {
        assert(pending.remove(i) =~= pending.drop_last());
    } else {
        let rest = pending.drop_last();
        lemma_fills_remove(ctx, rest, i);
        assert(pending.remove(i).drop_last() =~= rest.remove(i));
        assert(pending.remove(i).last() == pending.last());
        lemma_fills_last(ctx, pending.remove(i));
    }
}

/// Scheduled close orders taken in another order give the same fills.
pub proof fn lemma_fills_permutation(ctx: StrategyContext, p1: Seq<(usize, Order)>, p2: Seq<(usize, Order)>)
    requires
        p1.to_multiset() == p2.to_multiset(),
    ensures
        active_fills(ctx, p1).to_multiset() == active_fills(ctx, p2).to_multiset(),
        passive_fills(ctx, p1).to_multiset() == passive_fills(ctx, p2).to_multiset(),
    decreases p1.len(),
{
    p1.to_multiset_ensures();
    p2.to_multiset_ensures();
    if p1.len() == 0 {
        assert(p2.len() == 0);
        assert(p1 =~= p2);
    } else {
        let x = p1.last();
        let rest = p1.drop_last();
        rest.to_multiset_ensures();
        assert(rest.push(x) =~= p1);
        assert(p1.contains(x));
        assert(p2.to_multiset().count(x) > 0);
        assert(p2.contains(x));
        let i = choose|i: int| 0 <= i < p2.len() && p2[i] == x;
        assert(p2.remove(i).to_multiset() =~= p2.to_multiset().remove(x));
        assert(rest.to_multiset().insert(x).remove(x) =~= rest.to_multiset());
        lemma_fills_permutation(ctx, rest, p2.remove(i));
        lemma_fills_last(ctx, p1);
        lemma_fills_remove(ctx, p2, i);
    }
}

/// Total volume of the orders.
pub open spec fn sum_volumes(orders: Seq<Order>) -> nat
    decreases orders.len(),
{
    if orders.len() == 0 {
        0
    } else {
        (sum_volumes(orders.drop_last()) + orders.last().volume) as nat
    }
}

/// Total value of the orders.
pub open spec fn sum_values(orders: Seq<Order>) -> nat
    decreases orders.len(),
{
    if orders.len() == 0 {
        0
    } else {
        (sum_values(orders.drop_last()) + orders.last().value) as nat
    }
}

/// Relies on rayon's `par_iter().map(..).collect()` into a `Vec`, which
/// applies the function to every item and keeps the items' order.
#[verifier::external_body]
fn schedule_all(ctx: &StrategyContext, opened: &Vec<(usize, Order)>) -> (r: Vec<Option<(usize, Order)>>)
    requires
        ctx.wf(),
        forall|k: int| 0 <= k < opened.len() ==> (#[trigger] opened@[k]).1.volume <= ctx.config.open_volume,
    ensures
        r.len() == opened.len(),
        forall|k: int| 0 <= k < opened.len() ==> #[trigger] r@[k] == ctx.scheduled_close(opened@[k].0 as int, opened@[k].1),
{
    opened.par_iter().map(|(index, order)| ctx.schedule_close(*index, order)).collect()
}

/// Any two opened positions are further apart in time than the cooldown.
pub proof fn lemma_open_cooldown(ctx: &StrategyContext, a: int, b: int)
    requires
        ctx.ticks_sorted(),
        0 <= a < b < ctx.opens().len(),
    ensures
        ctx.opens()[b].1.timestamp - ctx.opens()[a].1.timestamp > ctx.config.open_min_interval,
{
    lemma_opens_shape(ctx, ctx.ticks.len() as nat);
    let s = ctx.opens();
    assert(ctx.ticks@[s[a].0 as int].timestamp <= ctx.ticks@[s[b - 1].0 as int].timestamp);
}

/// A series in which no snapshot is preceded, within its unbroken
/// look-back window, by a price the threshold above its own opens nothing,
/// and so schedules no close order.
pub proof fn lemma_no_rise_no_opens(ctx: &StrategyContext)
    requires
        forall|i: int, j: int| 0 <= j < i < ctx.ticks.len() && ctx.in_window(j, i)
            ==> !risen(#[trigger] ctx.ticks@[j].new_price, #[trigger] ctx.ticks@[i].new_price, ctx.config.rise_threshold),
    ensures
        ctx.opens().len() == 0,
        ctx.scheduled_closes(ctx.opens()).len() == 0,
{
    lemma_no_rise_upto(ctx, ctx.ticks.len() as nat);
}

proof fn lemma_no_rise_upto(ctx: &StrategyContext, n: nat)
    requires
        n <= ctx.ticks.len(),
        forall|i: int, j: int| 0 <= j < i < ctx.ticks.len() && ctx.in_window(j, i)
            ==> !risen(#[trigger] ctx.ticks@[j].new_price, #[trigger] ctx.ticks@[i].new_price, ctx.config.rise_threshold),
    ensures
        ctx.opens_upto(n).0.len() == 0,
    decreases n,
{
    if n > 0 {
        lemma_no_rise_upto(ctx, (n - 1) as nat);
        let i = n - 1;
        let last = ctx.opens_upto((n - 1) as nat).1;
        if ctx.triggers(i, last) {
            let j = choose|j: int| 0 <= j < i && #[trigger] risen(ctx.ticks@[j].new_price, ctx.ticks@[i].new_price, ctx.config.rise_threshold)
                && ctx.in_window(j, i);
            assert(false);
        }
    }
}

proof fn lemma_passive_run_times(ctx: &StrategyContext, k: int, price: Price, j: int, end: Time, current: nat)
    ensures
        forall|i: int| 0 <= i < ctx.passive_run(k, price, j, end, current).0.len()
            ==> ctx.is_trade_time(#[trigger] ctx.passive_run(k, price, j, end, current).0[i].timestamp),
    decreases ctx.transactions.len() - j,
{
    if !(j < 0 || j >= ctx.transactions.len() || current == 0 || ctx.transactions@[j].timestamp >= end) {
        let trx = ctx.transactions@[j];
        let rest = ctx.ticks@[k].limit_rest(price, current as usize, Direction::Sell, trx);
        if rest < current {
            lemma_passive_run_times(ctx, k, price, j + 1, end, rest as nat);
            let run = ctx.passive_run(k, price, j, end, current).0;
            let tail = ctx.passive_run(k, price, j + 1, end, rest as nat).0;
            assert(run.len() == tail.len() + 1);
            assert(run[0].timestamp == trx.timestamp);
            assert(ctx.is_trade_time(run[0].timestamp));
            assert forall|i: int| 0 <= i < run.len() implies ctx.is_trade_time(#[trigger] run[i].timestamp) by {
                if i == 0 {
                    assert(ctx.transactions@[j].timestamp == run[0].timestamp);
                } else {
                    assert(run[i] == tail[i - 1]);
                }
            }
        } else {
            lemma_passive_run_times(ctx, k, price, j + 1, end, current);
            assert(ctx.passive_run(k, price, j, end, current) == ctx.passive_run(k, price, j + 1, end, current));
        }
    }
}

proof fn lemma_close_run_times(ctx: &StrategyContext, pending: Order, k: int, current: nat)
    ensures
        ctx.close_run(pending, k, current).0 matches Some(a) ==> in_session(a.timestamp as int),
        forall|i: int| 0 <= i < ctx.close_run(pending, k, current).1.len()
            ==> ctx.is_trade_time(#[trigger] ctx.close_run(pending, k, current).1[i].timestamp),
    decreases ctx.ticks.len() - k,
{
    if !(k < 0 || k >= ctx.ticks.len() || current == 0) {
        let t = ctx.ticks@[k];
        if !(t.timestamp > pending.timestamp + ctx.config.close_waiting_elapsed && in_session(t.timestamp as int))
            && k + 1 < ctx.ticks.len() {
            let start = ctx.first_trade_from(0, t.timestamp);
            let end = ctx.ticks@[k + 1].timestamp;
            let (fills, left) = ctx.passive_run(k, pending.price, start, end, current);
            lemma_passive_run_times(ctx, k, pending.price, start, end, current);
            lemma_close_run_times(ctx, pending, k + 1, left);
            let later = ctx.close_run(pending, k + 1, left).1;
            let all = ctx.close_run(pending, k, current).1;
            assert(all == fills + later);
            assert forall|i: int| 0 <= i < all.len() implies ctx.is_trade_time(#[trigger] all[i].timestamp) by {
                if i < fills.len() {
                    assert(all[i] == fills[i]);
                } else {
                    assert(all[i] == later[i - fills.len()]);
                }
            }
        }
    }
}

proof fn lemma_fills_times(ctx: &StrategyContext, pending: Seq<(usize, Order)>)
    ensures
        forall|i: int| 0 <= i < active_fills(*ctx, pending).len() ==> in_session(#[trigger] active_fills(*ctx, pending)[i].timestamp as int),
        forall|i: int| 0 <= i < passive_fills(*ctx, pending).len() ==> ctx.is_trade_time(#[trigger] passive_fills(*ctx, pending)[i].timestamp),
    decreases pending.len(),
{
    if pending.len() > 0 {
        let prior = pending.drop_last();
        let p = pending.last();
        lemma_fills_times(ctx, prior);
        lemma_close_run_times(ctx, p.1, p.0 as int, p.1.volume as nat);
        let a0 = active_fills(*ctx, prior);
        let a = active_fills(*ctx, pending);
        assert forall|i: int| 0 <= i < a.len() implies in_session(#[trigger] a[i].timestamp as int) by {
            if i < a0.len() {
                assert(a[i] == a0[i]);
            }
        }
        let p0 = passive_fills(*ctx, prior);
        let run = ctx.close_run(p.1, p.0 as int, p.1.volume as nat).1;
        let all = passive_fills(*ctx, pending);
        assert(all == p0 + run);
        assert forall|i: int| 0 <= i < all.len() implies ctx.is_trade_time(#[trigger] all[i].timestamp) by {
            if i < p0.len() {
                assert(all[i] == p0[i]);
            } else {
                assert(all[i] == run[i - p0.len()]);
            }
        }
    }
}

/// No fill of the simulation lies outside the trading sessions: opens and
/// market closes never do, and resting fills do not where the tape's
/// trades all lie in the sessions.
pub proof fn lemma_fills_in_session(ctx: &StrategyContext)
    requires
        forall|j: int| 0 <= j < ctx.transactions.len() ==> in_session(#[trigger] ctx.transactions@[j].timestamp as int),
    ensures
        forall|i: int| 0 <= i < ctx.opens().len() ==> in_session(#[trigger] ctx.opens()[i].1.timestamp as int),
        forall|i: int| 0 <= i < active_fills(*ctx, ctx.scheduled_closes(ctx.opens())).len()
            ==> in_session(#[trigger] active_fills(*ctx, ctx.scheduled_closes(ctx.opens()))[i].timestamp as int),
        forall|i: int| 0 <= i < passive_fills(*ctx, ctx.scheduled_closes(ctx.opens())).len()
            ==> in_session(#[trigger] passive_fills(*ctx, ctx.scheduled_closes(ctx.opens()))[i].timestamp as int),
{
    lemma_opens_shape(ctx, ctx.ticks.len() as nat);
    let pending = ctx.scheduled_closes(ctx.opens());
    lemma_fills_times(ctx, pending);
    let all = passive_fills(*ctx, pending);
    assert forall|i: int| 0 <= i < all.len() implies in_session(#[trigger] all[i].timestamp as int) by {
        assert(ctx.is_trade_time(all[i].timestamp));
        let j = choose|j: int| 0 <= j < ctx.transactions.len() && #[trigger] ctx.transactions@[j].timestamp == all[i].timestamp;
    }
}

proof fn lemma_sum_volumes_concat(a: Seq<Order>, b: Seq<Order>)
    ensures
        sum_volumes(a + b) == sum_volumes(a) + sum_volumes(b),
    decreases b.len(),
{
    if b.len() == 0 {
        assert(a + b =~= a);
    } else {
        lemma_sum_volumes_concat(a, b.drop_last());
        assert((a + b).drop_last() =~= a + b.drop_last());
    }
}

proof fn lemma_passive_run_volumes(ctx: &StrategyContext, k: int, price: Price, j: int, end: Time, current: nat)
    requires
        current <= usize::MAX,
    ensures
        sum_volumes(ctx.passive_run(k, price, j, end, current).0) + ctx.passive_run(k, price, j, end, current).1 == current,
    decreases ctx.transactions.len() - j,
{
    if !(j < 0 || j >= ctx.transactions.len() || current == 0 || ctx.transactions@[j].timestamp >= end) {
        let trx = ctx.transactions@[j];
        let rest = ctx.ticks@[k].limit_rest(price, current as usize, Direction::Sell, trx);
        if rest < current {
            assert(rest >= 0);
            lemma_passive_run_volumes(ctx, k, price, j + 1, end, rest as nat);
            let run = ctx.passive_run(k, price, j, end, current).0;
            let tail = ctx.passive_run(k, price, j + 1, end, rest as nat).0;
            assert(run =~= seq![run[0]] + tail);
            assert(run[0].volume == current - rest);
            lemma_sum_volumes_concat(seq![run[0]], tail);
            let one = seq![run[0]];
            assert(one.drop_last() =~= Seq::<Order>::empty());
            assert(sum_volumes(one.drop_last()) == 0);
            assert(one.last() == run[0]);
            assert(sum_volumes(one) == run[0].volume);
        } else {
            lemma_passive_run_volumes(ctx, k, price, j + 1, end, current);
        }
    }
}

proof fn lemma_close_run_volumes(ctx: &StrategyContext, pending: Order, k: int, current: nat)
    requires
        current <= usize::MAX,
    ensures
        ctx.close_run(pending, k, current).0 matches Some(a) ==> sum_volumes(ctx.close_run(pending, k, current).1) + a.volume == current,
        ctx.close_run(pending, k, current).0 is None ==> sum_volumes(ctx.close_run(pending, k, current).1) <= current,
    decreases ctx.ticks.len() - k,
{
    if !(k < 0 || k >= ctx.ticks.len() || current == 0) {
        let t = ctx.ticks@[k];
        if !(t.timestamp > pending.timestamp + ctx.config.close_waiting_elapsed && in_session(t.timestamp as int))
            && k + 1 < ctx.ticks.len() {
            let start = ctx.first_trade_from(0, t.timestamp);
            let end = ctx.ticks@[k + 1].timestamp;
            let (fills, left) = ctx.passive_run(k, pending.price, start, end, current);
            lemma_passive_run_volumes(ctx, k, pending.price, start, end, current);
            lemma_close_run_volumes(ctx, pending, k + 1, left);
            lemma_sum_volumes_concat(fills, ctx.close_run(pending, k + 1, left).1);
        }
    }
}

/// A close order never sells more than its volume: its resting fills and
/// its market fill together come to at most that volume, and to exactly
/// that volume when there is a market fill.
pub proof fn lemma_close_conservation(ctx: &StrategyContext, pending: Order, index: int)
    ensures
        ctx.close_run(pending, index, pending.volume as nat).0 matches Some(a)
            ==> sum_volumes(ctx.close_run(pending, index, pending.volume as nat).1) + a.volume == pending.volume,
        sum_volumes(ctx.close_run(pending, index, pending.volume as nat).1)
            + (match ctx.close_run(pending, index, pending.volume as nat).0 { Some(a) => a.volume as nat, None => 0nat })
            <= pending.volume,
{
    lemma_close_run_volumes(ctx, pending, index, pending.volume as nat);
}

proof fn lemma_first_trade_from_later(ctx: &StrategyContext, j: int, t: Time)
    requires
        0 <= j <= ctx.transactions.len(),
    ensures
        ctx.first_trade_from(j, t) >= j,
        ctx.first_trade_from(j, t) >= ctx.transactions.len()
            || ctx.transactions@[ctx.first_trade_from(j, t)].timestamp > t,
    decreases ctx.transactions.len() - j,
{
    if j < ctx.transactions.len() && ctx.transactions@[j].timestamp <= t {
        lemma_first_trade_from_later(ctx, j + 1, t);
    }
}

/// A close order whose snapshot is not yet past the waiting deadline, with
/// no trade before the next snapshot, which is past the deadline and in a
/// session, is closed by one market fill of its whole volume there and by
/// no resting fill.
pub proof fn lemma_deadline_fallback(ctx: &StrategyContext, pending: Order, index: int)
    requires
        0 <= index,
        index + 1 < ctx.ticks.len(),
        pending.volume > 0,
        ctx.ticks@[index].timestamp <= pending.timestamp + ctx.config.close_waiting_elapsed,
        ctx.ticks@[index + 1].timestamp > pending.timestamp + ctx.config.close_waiting_elapsed,
        in_session(ctx.ticks@[index + 1].timestamp as int),
        forall|j: int| 0 <= j < ctx.transactions.len() ==> !(ctx.ticks@[index].timestamp < #[trigger] ctx.transactions@[j].timestamp
            < ctx.ticks@[index + 1].timestamp),
    ensures
        ctx.close_run(pending, index, pending.volume as nat)
            == (Some(ctx.active_order(index + 1, pending.volume as nat)), Seq::<Order>::empty()),
        ctx.active_order(index + 1, pending.volume as nat).volume == pending.volume,
        ctx.active_order(index + 1, pending.volume as nat).timestamp == ctx.ticks@[index + 1].timestamp,
{
    let t = ctx.ticks@[index];
    let start = ctx.first_trade_from(0, t.timestamp);
    lemma_first_trade_from_later(ctx, 0, t.timestamp);
    let end = ctx.ticks@[index + 1].timestamp;
    assert(ctx.passive_run(index, pending.price, start, end, pending.volume as nat) == (Seq::<Order>::empty(), pending.volume as nat));
    let later = ctx.close_run(pending, index + 1, pending.volume as nat);
    assert(later == (Some(ctx.active_order(index + 1, pending.volume as nat)), Seq::<Order>::empty()));
    assert(Seq::<Order>::empty() + Seq::<Order>::empty() =~= Seq::<Order>::empty());
}

proof fn lemma_opens_shape(ctx: &StrategyContext, n: nat)
    requires
        n <= ctx.ticks.len(),
    ensures
        ({
            let (s, last) = ctx.opens_upto(n);
            &&& forall|k: int| 0 <= k < s.len() ==> (#[trigger] s[k]).0 < n
                && s[k].1.timestamp == ctx.ticks@[s[k].0 as int].timestamp
                && in_session(s[k].1.timestamp as int)
                && s[k].1.volume == ctx.config.open_volume
            &&& forall|k: int, l: int| 0 <= k < l < s.len() ==> (#[trigger] s[k]).0 < (#[trigger] s[l]).0
            &&& forall|k: int| 0 < k < s.len() ==> (#[trigger] s[k]).1.timestamp - s[k - 1].1.timestamp
                > ctx.config.open_min_interval
            &&& s.len() > 0 ==> last == s.last().1.timestamp
        }),
    decreases n,
{
    if n > 0 {
        lemma_opens_shape(ctx, (n - 1) as nat);
    }
}

} // verus!
