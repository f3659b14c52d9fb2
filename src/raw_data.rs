use vstd::prelude::*;
use crate::tick::Tick;
use crate::transaction::Transaction;
use crate::utils::{decoded_time, time_parser, Direction};

verus! {

/// One order-book snapshot as recorded in the tick file, ten levels a side.
#[derive(Debug, Clone)]
pub struct TickRawData {
    pub ch_wind_code: String,
    pub n_time: usize,
    pub status: usize,
    pub pre_close: usize,
    pub open: usize,
    pub high: usize,
    pub low: usize,
    pub n_price: usize,
    pub n_ask_price_1: usize,
    pub n_ask_price_2: usize,
    pub n_ask_price_3: usize,
    pub n_ask_price_4: usize,
    pub n_ask_price_5: usize,
    pub n_ask_price_6: usize,
    pub n_ask_price_7: usize,
    pub n_ask_price_8: usize,
    pub n_ask_price_9: usize,
    pub n_ask_price_10: usize,
    pub n_ask_volume_1: usize,
    pub n_ask_volume_2: usize,
    pub n_ask_volume_3: usize,
    pub n_ask_volume_4: usize,
    pub n_ask_volume_5: usize,
    pub n_ask_volume_6: usize,
    pub n_ask_volume_7: usize,
    pub n_ask_volume_8: usize,
    pub n_ask_volume_9: usize,
    pub n_ask_volume_10: usize,
    pub n_bid_price_1: usize,
    pub n_bid_price_2: usize,
    pub n_bid_price_3: usize,
    pub n_bid_price_4: usize,
    pub n_bid_price_5: usize,
    pub n_bid_price_6: usize,
    pub n_bid_price_7: usize,
    pub n_bid_price_8: usize,
    pub n_bid_price_9: usize,
    pub n_bid_price_10: usize,
    pub n_bid_volume_1: usize,
    pub n_bid_volume_2: usize,
    pub n_bid_volume_3: usize,
    pub n_bid_volume_4: usize,
    pub n_bid_volume_5: usize,
    pub n_bid_volume_6: usize,
    pub n_bid_volume_7: usize,
    pub n_bid_volume_8: usize,
    pub n_bid_volume_9: usize,
    pub n_bid_volume_10: usize,
    pub n_match_items: usize,
    pub total_volume: usize,
    pub total_turnover: usize,
    pub total_bid_volume: usize,
    pub total_ask_volume: usize,
    pub weighted_avg_bid_price: usize,
    pub weighted_avg_ask_price: usize,
    pub iopv: usize,
    pub yield_to_maturity: usize,
    pub high_limited: usize,
    pub low_limited: usize,
}

/// One trade as recorded in the transaction file; `flag` is `"B"` or `"S"`.
#[derive(Debug, Clone)]
pub struct TrxRawData {
    pub tkr: String,
    pub time: usize,
    pub index: usize,
    pub price: usize,
    pub volume: usize,
    pub turnover: usize,
    pub flag: String,
    pub order_kind: usize,
    pub function_code: usize,
    pub ask_order: usize,
    pub bid_order: usize,
}

impl TickRawData {
    /// The ask levels of the record, best first.
    pub open spec fn ask_levels(&self) -> Seq<(usize, usize)> {
        seq![(self.n_ask_price_1, self.n_ask_volume_1), (self.n_ask_price_2, self.n_ask_volume_2), (self.n_ask_price_3, self.n_ask_volume_3), (self.n_ask_price_4, self.n_ask_volume_4), (self.n_ask_price_5, self.n_ask_volume_5), (self.n_ask_price_6, self.n_ask_volume_6), (self.n_ask_price_7, self.n_ask_volume_7), (self.n_ask_price_8, self.n_ask_volume_8), (self.n_ask_price_9, self.n_ask_volume_9), (self.n_ask_price_10, self.n_ask_volume_10)]
    }

    /// The bid levels of the record, best first.
    pub open spec fn bid_levels(&self) -> Seq<(usize, usize)> {
        seq![(self.n_bid_price_1, self.n_bid_volume_1), (self.n_bid_price_2, self.n_bid_volume_2), (self.n_bid_price_3, self.n_bid_volume_3), (self.n_bid_price_4, self.n_bid_volume_4), (self.n_bid_price_5, self.n_bid_volume_5), (self.n_bid_price_6, self.n_bid_volume_6), (self.n_bid_price_7, self.n_bid_volume_7), (self.n_bid_price_8, self.n_bid_volume_8), (self.n_bid_price_9, self.n_bid_volume_9), (self.n_bid_price_10, self.n_bid_volume_10)]
    }

    /// The snapshot the record describes, its time decoded.
    pub fn into_tick(self) -> (r: Tick)
        requires
            self.n_time <= i64::MAX,
        ensures
            r.timestamp == decoded_time(self.n_time as int),
            r.new_price == self.n_price,
            r.asks@ == self.ask_levels(),
            r.bids@ == self.bid_levels(),
            r.high_limited == self.high_limited,
            r.low_limited == self.low_limited,
    {
        let asks = vec![
                (self.n_ask_price_1, self.n_ask_volume_1),
                (self.n_ask_price_2, self.n_ask_volume_2),
                (self.n_ask_price_3, self.n_ask_volume_3),
                (self.n_ask_price_4, self.n_ask_volume_4),
                (self.n_ask_price_5, self.n_ask_volume_5),
                (self.n_ask_price_6, self.n_ask_volume_6),
                (self.n_ask_price_7, self.n_ask_volume_7),
                (self.n_ask_price_8, self.n_ask_volume_8),
                (self.n_ask_price_9, self.n_ask_volume_9),
                (self.n_ask_price_10, self.n_ask_volume_10),
        ];
        let bids = vec![
                (self.n_bid_price_1, self.n_bid_volume_1),
                (self.n_bid_price_2, self.n_bid_volume_2),
                (self.n_bid_price_3, self.n_bid_volume_3),
                (self.n_bid_price_4, self.n_bid_volume_4),
                (self.n_bid_price_5, self.n_bid_volume_5),
                (self.n_bid_price_6, self.n_bid_volume_6),
                (self.n_bid_price_7, self.n_bid_volume_7),
                (self.n_bid_price_8, self.n_bid_volume_8),
                (self.n_bid_price_9, self.n_bid_volume_9),
                (self.n_bid_price_10, self.n_bid_volume_10),
        ];
        assert(asks@ =~= self.ask_levels());
        assert(bids@ =~= self.bid_levels());
        Tick {
            timestamp: time_parser(self.n_time),
            new_price: self.n_price,
            asks,
            bids,
            high_limited: self.high_limited,
            low_limited: self.low_limited,
        }
    }
}

impl TrxRawData {
    /// Whether the record's side flag names a side.
    pub open spec fn has_side(&self) -> bool {
        self.flag@ == seq!['B'] || self.flag@ == seq!['S']
    }

    /// The trade the record describes, its time decoded and its flag read
    /// as the aggressor side.
    pub fn into_transaction(self) -> (r: Transaction)
        requires
            self.time <= i64::MAX,
            self.has_side(),
        ensures
            r.timestamp == decoded_time(self.time as int),
            r.index == self.index,
            r.price == self.price,
            r.volume == self.volume,
            r.direction == (if self.flag@ == seq!['B'] { Direction::Buy } else { Direction::Sell }),
    {
        let direction = Direction::from_flag(self.flag.as_str());
        Transaction {
            timestamp: time_parser(self.time),
            index: self.index,
            price: self.price,
            volume: self.volume,
            direction,
        }
    }
}

} // verus!
