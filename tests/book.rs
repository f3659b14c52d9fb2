use tick_backtest::ladder::{has_room_for, notional_fits};
use tick_backtest::raw_data::{TickRawData, TrxRawData};
use tick_backtest::tick::{OrderError, Tick};
use tick_backtest::transaction::Transaction;
use tick_backtest::utils::{time_parser, time_unparser, Direction};

fn book(timestamp: i64) -> Tick {
    Tick {
        timestamp,
        new_price: 100,
        asks: vec![(100, 10), (101, 20), (103, 30)],
        bids: vec![(100, 10), (99, 20)],
        high_limited: 110,
        low_limited: 90,
    }
}

fn trade(price: usize, volume: usize, direction: Direction) -> Transaction {
    Transaction { timestamp: 36_000_000, index: 7, price, volume, direction }
}

#[test]
fn time_parser_decodes() {
    assert_eq!(time_parser(93000000), 34_200_000);
    assert_eq!(time_parser(145959999), 53_999_999);
    assert_eq!(time_parser(0), 0);
    assert_eq!(time_parser(1), 1);
}

#[test]
fn time_unparser_encodes() {
    assert_eq!(time_unparser(34_200_000), 93000000);
    assert_eq!(time_unparser(53_999_999), 145959999);
    assert_eq!(time_unparser(0), 0);
}

#[test]
fn time_codec_round_trip() {
    for x in [0usize, 999, 59999, 5959999, 93000000, 113000500, 145959999, 235959999] {
        assert_eq!(time_unparser(time_parser(x)), x);
    }
}

#[test]
fn direction_flags() {
    assert_eq!(Direction::from_flag("B"), Direction::Buy);
    assert_eq!(Direction::from_flag("S"), Direction::Sell);
}

#[test]
fn trading_time_bounds() {
    assert!(book(34_200_000).in_trading_time());
    assert!(!book(34_199_999).in_trading_time());
    assert!(book(41_400_000).in_trading_time());
    assert!(!book(41_400_001).in_trading_time());
    assert!(!book(46_799_999).in_trading_time());
    assert!(book(46_800_000).in_trading_time());
    assert!(book(54_000_000).in_trading_time());
    assert!(!book(54_000_001).in_trading_time());
}

#[test]
fn snapshot_accessors() {
    let t = book(36_000_000);
    assert_eq!(t.get_first_ask_price(), Some(100));
    assert_eq!(t.get_first_bid_price(), Some(100));
    let empty = Tick { timestamp: 0, new_price: 0, asks: vec![], bids: vec![], high_limited: 0, low_limited: 0 };
    assert_eq!(empty.get_first_ask_price(), None);
    assert_eq!(empty.get_first_bid_price(), None);
    assert_eq!(t.time_eplased(&book(35_000_000)), 1_000_000);
    assert_eq!(book(35_000_000).time_eplased(&t), -1_000_000);
    assert!(t.is_price_valid(109, Direction::Buy));
    assert!(!t.is_price_valid(110, Direction::Buy));
    assert!(t.is_price_valid(91, Direction::Sell));
    assert!(!t.is_price_valid(90, Direction::Sell));
}

#[test]
fn market_order_walks_the_asks() {
    let t = book(36_000_000);
    assert_eq!(t.handle_market_order(25, Direction::Buy), Ok((100, 2515)));
    assert_eq!(t.handle_market_order(10, Direction::Buy), Ok((100, 1000)));
    assert_eq!(t.handle_market_order(60, Direction::Buy), Ok((101, 6110)));
}

#[test]
fn market_order_walks_the_bids() {
    let t = book(36_000_000);
    assert_eq!(t.handle_market_order(15, Direction::Sell), Ok((99, 1495)));
}

#[test]
fn market_order_beyond_depth_values_what_is_there() {
    let t = book(36_000_000);
    assert_eq!(t.handle_market_order(100, Direction::Buy), Ok((61, 6110)));
}

#[test]
fn market_order_outside_trading_hours_fails() {
    let t = book(43_000_000);
    assert_eq!(t.handle_market_order(10, Direction::Buy), Err(OrderError::NotInTradingTime(43_000_000)));
}

#[test]
fn trade_consumes_levels() {
    let mut levels = vec![(100, 10), (101, 20), (102, 30)];
    trade(101, 25, Direction::Buy).handle(&mut levels);
    assert_eq!(levels, vec![(100, 0), (101, 5), (102, 30)]);

    let mut levels = vec![(100, 10), (101, 20), (102, 30)];
    trade(100, 50, Direction::Buy).handle(&mut levels);
    assert_eq!(levels, vec![(100, 0), (101, 20), (102, 30)]);

    let mut levels = vec![(100, 10), (99, 20)];
    trade(99, 15, Direction::Sell).handle(&mut levels);
    assert_eq!(levels, vec![(100, 0), (99, 15)]);

    let mut levels = vec![(100, 10), (99, 20)];
    trade(101, 15, Direction::Sell).handle(&mut levels);
    assert_eq!(levels, vec![(100, 10), (99, 20)]);

    let mut levels = vec![(100, 10)];
    trade(100, 10, Direction::Buy).handle(&mut levels);
    assert_eq!(levels, vec![(100, 0)]);
}

#[test]
fn limit_order_joins_an_existing_level() {
    let t = book(36_000_000);
    assert_eq!(t.handle_limit_order_by_transaction(100, 10, Direction::Sell, &trade(100, 5, Direction::Buy)), 7);
    assert_eq!(t.handle_limit_order_by_transaction(100, 10, Direction::Sell, &trade(99, 5, Direction::Buy)), 10);
    assert_eq!(t.handle_limit_order_by_transaction(100, 10, Direction::Sell, &trade(100, 40, Direction::Buy)), 0);
}

#[test]
fn limit_order_forms_a_new_level() {
    let t = book(36_000_000);
    assert_eq!(t.handle_limit_order_by_transaction(101, 10, Direction::Sell, &trade(101, 4, Direction::Buy)), 6);
    assert_eq!(t.handle_limit_order_by_transaction(98, 10, Direction::Sell, &trade(101, 35, Direction::Buy)), 5);
}

#[test]
fn limit_order_ignores_trades_on_its_own_side() {
    let t = book(36_000_000);
    assert_eq!(t.handle_limit_order_by_transaction(100, 10, Direction::Sell, &trade(100, 40, Direction::Sell)), 10);
    assert_eq!(t.handle_limit_order_by_transaction(100, 10, Direction::Buy, &trade(100, 40, Direction::Buy)), 10);
}

#[test]
fn limit_buy_rests_among_the_asks() {
    let t = book(36_000_000);
    assert_eq!(t.handle_limit_order_by_transaction(101, 20, Direction::Buy, &trade(100, 30, Direction::Sell)), 10);
    assert_eq!(t.handle_limit_order_by_transaction(102, 10, Direction::Buy, &trade(100, 35, Direction::Sell)), 5);
}

fn raw_tick() -> TickRawData {
    TickRawData {
        ch_wind_code: String::from("601012.SH"),
        n_time: 93003000,
        status: 0,
        pre_close: 0,
        open: 0,
        high: 0,
        low: 0,
        n_price: 4000,
        n_ask_price_1: 4001, n_ask_price_2: 4002, n_ask_price_3: 4003, n_ask_price_4: 4004, n_ask_price_5: 4005,
        n_ask_price_6: 4006, n_ask_price_7: 4007, n_ask_price_8: 4008, n_ask_price_9: 4009, n_ask_price_10: 4010,
        n_ask_volume_1: 1, n_ask_volume_2: 2, n_ask_volume_3: 3, n_ask_volume_4: 4, n_ask_volume_5: 5,
        n_ask_volume_6: 6, n_ask_volume_7: 7, n_ask_volume_8: 8, n_ask_volume_9: 9, n_ask_volume_10: 10,
        n_bid_price_1: 3999, n_bid_price_2: 3998, n_bid_price_3: 3997, n_bid_price_4: 3996, n_bid_price_5: 3995,
        n_bid_price_6: 3994, n_bid_price_7: 3993, n_bid_price_8: 3992, n_bid_price_9: 3991, n_bid_price_10: 3990,
        n_bid_volume_1: 11, n_bid_volume_2: 12, n_bid_volume_3: 13, n_bid_volume_4: 14, n_bid_volume_5: 15,
        n_bid_volume_6: 16, n_bid_volume_7: 17, n_bid_volume_8: 18, n_bid_volume_9: 19, n_bid_volume_10: 20,
        n_match_items: 0,
        total_volume: 0,
        total_turnover: 0,
        total_bid_volume: 0,
        total_ask_volume: 0,
        weighted_avg_bid_price: 0,
        weighted_avg_ask_price: 0,
        iopv: 0,
        yield_to_maturity: 0,
        high_limited: 4400,
        low_limited: 3600,
    }
}

#[test]
fn raw_tick_becomes_a_snapshot() {
    let t = raw_tick().into_tick();
    assert_eq!(t.timestamp, 34_203_000);
    assert_eq!(t.new_price, 4000);
    assert_eq!(t.asks.len(), 10);
    assert_eq!(t.asks[0], (4001, 1));
    assert_eq!(t.asks[9], (4010, 10));
    assert_eq!(t.bids[0], (3999, 11));
    assert_eq!(t.bids[9], (3990, 20));
    assert_eq!(t.high_limited, 4400);
    assert_eq!(t.low_limited, 3600);
}

#[test]
fn raw_trade_becomes_a_transaction() {
    let raw = TrxRawData {
        tkr: String::from("601012.SH"),
        time: 93003500,
        index: 42,
        price: 4001,
        volume: 300,
        turnover: 1_200_300,
        flag: String::from("S"),
        order_kind: 0,
        function_code: 0,
        ask_order: 1,
        bid_order: 2,
    };
    let t = raw.into_transaction();
    assert_eq!(t.timestamp, 34_203_500);
    assert_eq!(t.index, 42);
    assert_eq!(t.price, 4001);
    assert_eq!(t.volume, 300);
    assert_eq!(t.direction, Direction::Sell);
}

#[test]
fn ladder_limits() {
    assert!(notional_fits(&vec![(100, 10), (101, 20)]));
    assert!(notional_fits(&vec![]));
    assert!(!notional_fits(&vec![(usize::MAX / 2, 3)]));
    assert!(!notional_fits(&vec![(usize::MAX / 2, 1), (usize::MAX / 2, 1), (2, 1)]));
    assert!(has_room_for(&vec![(100, 10)], usize::MAX - 10));
    assert!(!has_room_for(&vec![(100, 10)], usize::MAX - 9));
}
