use tick_backtest::strategy::{apply_fee, Order, Ratio, StrategyConfig, StrategyContext, StrategyResult};
use tick_backtest::tick::Tick;
use tick_backtest::transaction::Transaction;
use tick_backtest::utils::Direction;

fn tick(timestamp: i64, new_price: usize, asks: Vec<(usize, usize)>, bids: Vec<(usize, usize)>) -> Tick {
    Tick { timestamp, new_price, asks, bids, high_limited: 2000, low_limited: 500 }
}

fn trade(timestamp: i64, price: usize, volume: usize, direction: Direction) -> Transaction {
    Transaction { timestamp, index: 0, price, volume, direction }
}

fn config(active_fee: Ratio, passive_fee: Ratio) -> StrategyConfig {
    StrategyConfig {
        rise_duration: 600_000,
        rise_threshold: Ratio { num: 5, den: 1000 },
        open_volume: 1000,
        open_min_interval: 30_000,
        limit_close_elapsed: 60_000,
        close_waiting_elapsed: 30_000,
        active_fee_ratio: active_fee,
        passive_fee_ratio: passive_fee,
    }
}

fn yield_rate(r: &StrategyResult) -> f64 {
    ((r.close_active_traded_value + r.close_passive_traded_value) as f64 - r.open_value as f64) / r.open_value as f64
}

fn fallback_context() -> StrategyContext {
    StrategyContext {
        ticks: vec![
            tick(36_000_000, 1010, vec![(1010, 5000)], vec![(1000, 5000)]),
            tick(36_001_000, 1000, vec![(1000, 5000)], vec![(990, 5000)]),
            tick(36_070_000, 1050, vec![(1060, 100)], vec![(1050, 5000)]),
            tick(36_110_000, 1050, vec![(1060, 100)], vec![(1050, 5000)]),
        ],
        transactions: vec![],
        config: config(Ratio { num: 2, den: 100 }, Ratio { num: 15, den: 100_000 }),
    }
}

#[test]
fn yield_rate_of_one_open_and_one_market_close() {
    let ctx = fallback_context();
    let r = ctx.process();
    assert_eq!(r.open_times, 1);
    assert_eq!(r.open_value, 1_000_000);
    assert_eq!(r.close_active_traded_times, 1);
    assert_eq!(r.close_active_traded_value, 1_029_000);
    assert_eq!(r.close_passive_traded_times, 0);
    assert_eq!(r.close_passive_traded_value, 0);
    assert!((yield_rate(&r) - 0.029).abs() < 1e-12);
}

#[test]
fn deadline_fallback_takes_the_whole_position() {
    let ctx = fallback_context();
    let opens = ctx.open_market_orders();
    assert_eq!(opens.len(), 1);
    assert_eq!(opens[0].0, 1);
    assert_eq!(opens[0].1, Order { timestamp: 36_001_000, price: 1000, volume: 1000, value: 1_000_000 });
    let pending = ctx.close_limit_pending_orders(&opens);
    assert_eq!(pending.len(), 1);
    assert_eq!(pending[0].0, 2);
    assert_eq!(pending[0].1, Order { timestamp: 36_070_000, price: 1060, volume: 1000, value: 1_060_000 });
    let (active, passive) = ctx.close_order(pending[0].0, &pending[0].1);
    assert_eq!(active, Some(Order { timestamp: 36_110_000, price: 1050, volume: 1000, value: 1_029_000 }));
    assert!(passive.is_empty());
}

#[test]
fn flat_series_opens_nothing() {
    let mut ticks = Vec::new();
    for k in 0..20 {
        ticks.push(tick(36_000_000 + k * 10_000, 1000, vec![(1001, 5000)], vec![(999, 5000)]));
    }
    let ctx = StrategyContext {
        ticks,
        transactions: vec![trade(36_005_000, 1000, 100, Direction::Buy)],
        config: config(Ratio { num: 2, den: 10_000 }, Ratio { num: 15, den: 100_000 }),
    };
    let r = ctx.process();
    assert_eq!(
        r,
        StrategyResult {
            open_times: 0,
            open_value: 0,
            close_active_traded_times: 0,
            close_active_traded_value: 0,
            close_passive_traded_times: 0,
            close_passive_traded_value: 0,
        }
    );
}

#[test]
fn opens_respect_the_cooldown() {
    let mut ticks = Vec::new();
    for k in 0..10 {
        let price = if k % 2 == 0 { 1010 } else { 1000 };
        ticks.push(tick(36_000_000 + k * 10_000, price, vec![(1000, 5000)], vec![(990, 5000)]));
    }
    let ctx = StrategyContext {
        ticks,
        transactions: vec![],
        config: config(Ratio { num: 2, den: 10_000 }, Ratio { num: 15, den: 100_000 }),
    };
    let opens = ctx.open_market_orders();
    let indexes: Vec<usize> = opens.iter().map(|(i, _)| *i).collect();
    assert_eq!(indexes, vec![1, 5, 9]);
    for a in 0..opens.len() {
        for b in (a + 1)..opens.len() {
            assert!(opens[b].1.timestamp - opens[a].1.timestamp > 30_000);
        }
    }
}

#[test]
fn no_open_outside_trading_hours() {
    let ctx = StrategyContext {
        ticks: vec![
            tick(33_000_000, 1010, vec![(1010, 5000)], vec![(1000, 5000)]),
            tick(33_001_000, 1000, vec![(1000, 5000)], vec![(990, 5000)]),
            tick(42_000_000, 1010, vec![(1010, 5000)], vec![(1000, 5000)]),
            tick(42_001_000, 1000, vec![(1000, 5000)], vec![(990, 5000)]),
        ],
        transactions: vec![],
        config: config(Ratio { num: 2, den: 10_000 }, Ratio { num: 15, den: 100_000 }),
    };
    assert!(ctx.open_market_orders().is_empty());
    assert!(!ctx.open_trigger(1, &ctx.ticks[1], 0));
}

#[test]
fn trigger_window_stops_at_an_old_snapshot() {
    let ctx = StrategyContext {
        ticks: vec![
            tick(36_000_000, 1010, vec![(1010, 5000)], vec![(1000, 5000)]),
            tick(36_700_000, 1000, vec![(1000, 5000)], vec![(990, 5000)]),
        ],
        transactions: vec![],
        config: config(Ratio { num: 2, den: 10_000 }, Ratio { num: 15, den: 100_000 }),
    };
    assert!(!ctx.open_trigger(1, &ctx.ticks[1], 0));
    assert!(ctx.open_market_orders().is_empty());
}

#[test]
fn passive_fills_add_up_to_the_position() {
    let ctx = StrategyContext {
        ticks: vec![
            tick(36_000_000, 100, vec![(101, 10)], vec![(100, 10)]),
            tick(36_005_000, 100, vec![(101, 10)], vec![(100, 10)]),
        ],
        transactions: vec![
            trade(36_000_000, 100, 50, Direction::Buy),
            trade(36_001_000, 100, 8, Direction::Buy),
            trade(36_001_500, 100, 50, Direction::Sell),
            trade(36_002_000, 100, 20, Direction::Buy),
            trade(36_006_000, 100, 50, Direction::Buy),
        ],
        config: config(Ratio { num: 2, den: 10_000 }, Ratio { num: 15, den: 100_000 }),
    };
    let pending = Order { timestamp: 36_000_000, price: 100, volume: 10, value: 1000 };
    let (active, passive) = ctx.close_order(0, &pending);
    assert_eq!(active, None);
    assert_eq!(
        passive,
        vec![
            Order { timestamp: 36_001_000, price: 100, volume: 4, value: 399 },
            Order { timestamp: 36_002_000, price: 100, volume: 6, value: 599 },
        ]
    );
    let total: usize = passive.iter().map(|o| o.volume).sum();
    assert_eq!(total, 10);
}

#[test]
fn unfilled_rest_is_dropped_at_end_of_data() {
    let ctx = StrategyContext {
        ticks: vec![
            tick(36_000_000, 100, vec![(101, 10)], vec![(100, 10)]),
            tick(36_005_000, 100, vec![(101, 10)], vec![(100, 10)]),
        ],
        transactions: vec![trade(36_001_000, 100, 8, Direction::Buy)],
        config: config(Ratio { num: 2, den: 10_000 }, Ratio { num: 15, den: 100_000 }),
    };
    let pending = Order { timestamp: 36_000_000, price: 100, volume: 10, value: 1000 };
    let (active, passive) = ctx.close_order(0, &pending);
    assert_eq!(active, None);
    assert_eq!(passive.len(), 1);
    assert_eq!(passive[0].volume, 4);
}

#[test]
fn close_all_orders_gathers_fills_in_time_order() {
    let ctx = StrategyContext {
        ticks: vec![
            tick(36_000_000, 100, vec![(101, 10)], vec![(100, 10)]),
            tick(36_005_000, 100, vec![(101, 10)], vec![(100, 10)]),
            tick(36_040_000, 100, vec![(101, 10)], vec![(99, 100)]),
        ],
        transactions: vec![trade(36_001_000, 100, 8, Direction::Buy), trade(36_006_000, 100, 2, Direction::Buy)],
        config: config(Ratio { num: 2, den: 10_000 }, Ratio { num: 15, den: 100_000 }),
    };
    let pending = vec![
        (1, Order { timestamp: 36_005_000, price: 100, volume: 10, value: 1000 }),
        (0, Order { timestamp: 36_000_000, price: 100, volume: 10, value: 1000 }),
    ];
    let (active, passive) = ctx.close_all_orders(&pending);
    assert_eq!(active.len(), 2);
    assert_eq!(active[0].timestamp, 36_040_000);
    assert_eq!(passive.iter().map(|o| o.timestamp).collect::<Vec<_>>(), vec![36_001_000, 36_006_000, 36_006_000]);
}

#[test]
fn fee_is_deducted_and_truncated() {
    assert_eq!(apply_fee(1_050_000, Ratio { num: 2, den: 100 }), 1_029_000);
    assert_eq!(apply_fee(1000, Ratio { num: 15, den: 100_000 }), 999);
    assert_eq!(apply_fee(1000, Ratio { num: 0, den: 1 }), 1000);
    assert_eq!(apply_fee(1000, Ratio { num: 1, den: 1 }), 0);
}

#[test]
fn result_totals_orders() {
    let opens = vec![
        (0, Order { timestamp: 1, price: 10, volume: 5, value: 50 }),
        (3, Order { timestamp: 2, price: 10, volume: 6, value: 60 }),
    ];
    let active = vec![Order { timestamp: 3, price: 11, volume: 5, value: 54 }];
    let passive = vec![
        Order { timestamp: 4, price: 12, volume: 3, value: 35 },
        Order { timestamp: 5, price: 12, volume: 3, value: 35 },
    ];
    let r = StrategyResult::new(&opens, &active, &passive);
    assert_eq!(r.open_times, 2);
    assert_eq!(r.open_value, 110);
    assert_eq!(r.close_active_traded_times, 1);
    assert_eq!(r.close_active_traded_value, 54);
    assert_eq!(r.close_passive_traded_times, 2);
    assert_eq!(r.close_passive_traded_value, 70);
}

#[test]
fn result_totals_do_not_overflow() {
    let big = Order { timestamp: 1, price: 1, volume: 1, value: usize::MAX };
    let r = StrategyResult::new(&vec![(0, big), (1, big)], &vec![], &vec![]);
    assert_eq!(r.open_value, 2 * (usize::MAX as u128));
}

#[test]
fn well_formedness_is_checked() {
    assert!(fallback_context().is_well_formed());
    let mut ctx = fallback_context();
    ctx.config.open_volume = 0;
    assert!(!ctx.is_well_formed());
    let mut ctx = fallback_context();
    ctx.config.active_fee_ratio = Ratio { num: 3, den: 2 };
    assert!(!ctx.is_well_formed());
    let mut ctx = fallback_context();
    ctx.config.rise_threshold = Ratio { num: 1, den: 0 };
    assert!(!ctx.is_well_formed());
    let mut ctx = fallback_context();
    ctx.ticks[0].asks = vec![(usize::MAX / 2, 3)];
    assert!(!ctx.is_well_formed());
    let mut ctx = fallback_context();
    ctx.ticks[0].bids = vec![(1, usize::MAX - 10)];
    assert!(!ctx.is_well_formed());
    let mut ctx = fallback_context();
    ctx.ticks[0].asks = vec![(usize::MAX / 100, 1)];
    assert!(!ctx.is_well_formed());
}

#[test]
fn first_trade_after_skips_equal_times() {
    let ctx = StrategyContext {
        ticks: vec![],
        transactions: vec![
            trade(10, 1, 1, Direction::Buy),
            trade(20, 1, 1, Direction::Buy),
            trade(30, 1, 1, Direction::Buy),
        ],
        config: config(Ratio { num: 2, den: 100 }, Ratio { num: 15, den: 100_000 }),
    };
    assert_eq!(ctx.first_trade_after(5), 0);
    assert_eq!(ctx.first_trade_after(10), 1);
    assert_eq!(ctx.first_trade_after(25), 2);
    assert_eq!(ctx.first_trade_after(30), 3);
    assert_eq!(ctx.first_trade_after(99), 3);
}

#[test]
fn schedule_close_needs_a_later_snapshot_with_asks() {
    let ctx = fallback_context();
    let opened = Order { timestamp: 36_001_000, price: 1000, volume: 1000, value: 1_000_000 };
    assert_eq!(
        ctx.schedule_close(1, &opened),
        Some((2, Order { timestamp: 36_070_000, price: 1060, volume: 1000, value: 1_060_000 }))
    );
    let late = Order { timestamp: 36_100_000, price: 1000, volume: 1000, value: 1_000_000 };
    assert_eq!(ctx.schedule_close(1, &late), None);
    let mut ctx = fallback_context();
    ctx.ticks[2].asks = vec![];
    assert_eq!(ctx.schedule_close(1, &opened), None);
}

#[test]
fn scheduled_closes_come_out_in_time_order() {
    let ctx = fallback_context();
    let opens = vec![
        (1, Order { timestamp: 36_001_000, price: 1000, volume: 1000, value: 1_000_000 }),
        (0, Order { timestamp: 35_900_000, price: 1010, volume: 1000, value: 1_010_000 }),
    ];
    let pending = ctx.close_limit_pending_orders(&opens);
    assert_eq!(
        pending,
        vec![
            (0, Order { timestamp: 36_000_000, price: 1010, volume: 1000, value: 1_010_000 }),
            (2, Order { timestamp: 36_070_000, price: 1060, volume: 1000, value: 1_060_000 }),
        ]
    );
}
