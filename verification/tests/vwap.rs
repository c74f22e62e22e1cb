use memory_ordering::binary64::Double;
use memory_ordering::vwap::{
    OrderAction, OrderManager, VwapConfig, VwapScheduler, VwapState, BIN_DURATION_SECS, NUM_BINS,
};

fn double(x: f64) -> Double {
    Double::from_bits(x.to_bits())
}

fn config(parent_qty: u64, weights: [f64; NUM_BINS], max_participation_rate: f64) -> VwapConfig {
    VwapConfig {
        parent_qty,
        historical_weights: weights.map(double),
        max_participation_rate: double(max_participation_rate),
    }
}

fn flat_config() -> VwapConfig {
    config(78_000, [1.0 / (NUM_BINS as f64); NUM_BINS], 0.50)
}

fn manager_with_threshold(min_trade_threshold: u64) -> OrderManager {
    OrderManager::new(flat_config(), [10_000; NUM_BINS], min_trade_threshold)
}

fn mock_setup() -> OrderManager {
    manager_with_threshold(100)
}

#[test]
fn test_tick_extrapolation_and_threshold_pacing() {
    let mut om = mock_setup();

    // 3,000 traded after 30% of the bin: on pace for 10,000, so the target is 1,000.
    let action = om.on_market_trade(3_000, double(90.0));
    assert_eq!(action, Some(OrderAction::NewOrder { qty: 1_000 }));

    // A tick of 10 moves the target by less than the threshold.
    let action2 = om.on_market_trade(10, double(91.0));
    assert_eq!(action2, None);

    // 9,010 traded after 40% of the bin: heading for 22,525, so the target is 2,253.
    let action3 = om.on_market_trade(6_000, double(120.0));
    assert_eq!(action3, Some(OrderAction::ModifyOrder { new_qty: 2_253 }));
}

#[test]
fn test_fill_processing_and_bin_reset() {
    let mut om = mock_setup();
    om.on_market_trade(3_000, double(90.0));

    om.on_execution_fill(400);
    assert_eq!(om.working_order_qty(), 600);
    assert_eq!(om.state().remaining_qty, 77_600);

    om.on_bin_transition();
    assert_eq!(om.state().current_bin, 1);
    assert_eq!(om.working_order_qty(), 0);
    assert_eq!(om.raw_bin_volume(), 0);
}

#[test]
fn three_thousand_in_ninety_seconds_head_for_ten_thousand() {
    let mut weights = [0.0; NUM_BINS];
    weights[0] = 1.0;
    let mut om = OrderManager::new(config(100_000, weights, 0.5), [10_000; NUM_BINS], 100);
    // Half of 10,000 is the most that may be asked for.
    let action = om.on_market_trade(3_000, double(90.0));
    assert_eq!(action, Some(OrderAction::NewOrder { qty: 5_000 }));
}

#[test]
fn extrapolation_agrees_with_the_hardware() {
    let mut weights = [0.0; NUM_BINS];
    weights[0] = 1.0;
    for seconds in 0..320 {
        for volume in [1, 7, 300, 3_000, 9_010, 123_456_789] {
            let elapsed = seconds as f64 + 0.25;
            let heading_for = (volume as f64 / (elapsed / 300.0).clamp(0.01, 1.0)) as u64;
            let mut om = OrderManager::new(config(u64::MAX, weights, 1.0), [1; NUM_BINS], 1);
            let action = om.on_market_trade(volume, double(elapsed));
            assert_eq!(action, Some(OrderAction::NewOrder { qty: heading_for }));
        }
    }
}

/// The same sizing on the hardware's numbers.
fn expected_child(
    weights: &[f64; NUM_BINS],
    rate: f64,
    bin: usize,
    remaining: u64,
    live: u64,
    expected: u64,
) -> u64 {
    let mut suffix = 0.0;
    for k in (bin..NUM_BINS).rev() {
        suffix += weights[k];
    }
    let base = if suffix > 0.0 {
        remaining as f64 * (weights[bin] / suffix)
    } else {
        remaining as f64
    };
    let ratio = if expected > 0 { live as f64 / expected as f64 } else { 1.0 };
    let cap = (live as f64 * rate) as u64;
    ((base * ratio + 0.5) as u64).min(cap).min(remaining)
}

#[test]
fn child_orders_agree_with_the_hardware() {
    let mut seed: u64 = 0x5851_f42d_4c95_7f2d;
    let mut next = move || {
        seed ^= seed << 13;
        seed ^= seed >> 7;
        seed ^= seed << 17;
        seed
    };
    for round in 0..60 {
        let mut weights = [0.0; NUM_BINS];
        for weight in weights.iter_mut() {
            *weight = match round % 6 {
                0 => 0.0,
                1 => -(next() as f64),
                2 => f64::from_bits(next()),
                _ => next() as f64 / 1.0e21,
            };
        }
        let rate = if round % 5 == 0 { f64::from_bits(next()) } else { (next() % 1000) as f64 / 500.0 };
        let parent = next() >> (next() % 64);
        let mut scheduler = VwapScheduler::new(config(parent, weights, rate));
        for bin in 0..NUM_BINS {
            let live = next() >> (next() % 64);
            let expected = if next() % 8 == 0 { 0 } else { next() >> (next() % 64) };
            let state = scheduler.state();
            assert_eq!(state.current_bin, bin);
            assert_eq!(state.executed_qty + state.remaining_qty, parent);
            let child = scheduler.calculate_child_order(live, expected);
            assert_eq!(
                child,
                expected_child(&weights, rate, bin, state.remaining_qty, live, expected)
            );
            assert_eq!(scheduler.state().remaining_qty, state.remaining_qty);
            scheduler.on_fill(child / 2);
            scheduler.advance_bin();
        }
        assert_eq!(scheduler.state().current_bin, NUM_BINS);
    }
}

#[test]
fn a_new_scheduler_has_everything_to_do() {
    let state = VwapScheduler::new(flat_config()).state();
    assert_eq!(state.current_bin, 0);
    assert_eq!(state.executed_qty, 0);
    assert_eq!(state.remaining_qty, 78_000);
    let empty = VwapState::default();
    assert_eq!((empty.current_bin, empty.executed_qty, empty.remaining_qty), (0, 0, 0));
    assert_eq!(BIN_DURATION_SECS, 300);
}

#[test]
fn a_child_order_follows_volume_up_to_the_cap() {
    let mut scheduler = VwapScheduler::new(flat_config());
    assert_eq!(scheduler.calculate_child_order(10_000, 10_000), 1_000);
    assert_eq!(scheduler.calculate_child_order(20_000, 10_000), 2_000);
    // Half of the live volume is the most that may be asked for.
    assert_eq!(scheduler.calculate_child_order(1_000, 1), 500);
    // Nothing is expected: the slice stays as it is.
    assert_eq!(scheduler.calculate_child_order(10_000, 0), 1_000);
    // What remains is the most that may be asked for.
    assert_eq!(scheduler.calculate_child_order(1_000_000_000, 1), 78_000);
    assert_eq!(scheduler.calculate_child_order(0, 10_000), 0);
}

#[test]
fn bins_without_weight_leave_everything_to_the_current_one() {
    let mut scheduler = VwapScheduler::new(config(500, [0.0; NUM_BINS], 1.0));
    assert_eq!(scheduler.calculate_child_order(10_000, 10_000), 500);
}

#[test]
fn the_last_bin_takes_the_rest() {
    let mut scheduler = VwapScheduler::new(flat_config());
    for _ in 0..NUM_BINS - 1 {
        scheduler.advance_bin();
    }
    scheduler.on_fill(70_001);
    assert_eq!(scheduler.calculate_child_order(100_000, 100_000), 7_999);
    assert_eq!(scheduler.calculate_child_order(100_000, 20_000), 7_999);
    assert_eq!(scheduler.calculate_child_order(100_000, 0), 7_999);
    for weight in [0.0, -0.0, -1.0, f64::NAN, f64::NEG_INFINITY, 1.0e-320] {
        let mut scheduler = VwapScheduler::new(config(500, [weight; NUM_BINS], 1.0));
        for _ in 0..NUM_BINS - 1 {
            scheduler.advance_bin();
        }
        assert_eq!(scheduler.calculate_child_order(1_000, 1_000), 500, "with weight {weight}");
    }
}

#[test]
fn a_child_order_grows_with_the_live_volume_and_shrinks_with_the_expected_one() {
    let mut scheduler = VwapScheduler::new(flat_config());
    let mut before = 0;
    for live in 0..5_000 {
        let child = scheduler.calculate_child_order(live * 7, 10_000);
        assert!(child >= before);
        before = child;
    }
    let mut before = u64::MAX;
    for expected in 1..5_000 {
        let child = scheduler.calculate_child_order(10_000, expected * 7);
        assert!(child <= before);
        before = child;
    }
    // A weight of negative zero takes nothing while other bins have weight.
    let mut weights = [1.0; NUM_BINS];
    weights[0] = -0.0;
    let mut scheduler = VwapScheduler::new(config(500, weights, 1.0));
    assert_eq!(scheduler.calculate_child_order(1_000, 1_000), 0);
    assert_eq!(scheduler.calculate_child_order(1_000_000, 1), 0);
    let mut scheduler = VwapScheduler::new(config(500, [1.0; NUM_BINS], -0.0));
    assert_eq!(scheduler.calculate_child_order(1_000_000, 1), 0);
}

#[test]
fn fills_stop_at_the_parent_quantity() {
    let mut scheduler = VwapScheduler::new(flat_config());
    scheduler.on_fill(77_000);
    scheduler.on_fill(5_000);
    let state = scheduler.state();
    assert_eq!((state.executed_qty, state.remaining_qty), (78_000, 0));
    scheduler.on_fill(u64::MAX);
    assert_eq!(scheduler.state().executed_qty, 78_000);
}

#[test]
fn two_fills_are_one() {
    let mut apart = mock_setup();
    apart.on_market_trade(3_000, double(90.0));
    apart.on_execution_fill(300);
    apart.on_execution_fill(900);
    let mut together = mock_setup();
    together.on_market_trade(3_000, double(90.0));
    together.on_execution_fill(1_200);
    for om in [&apart, &together] {
        assert_eq!(om.state().executed_qty, 1_200);
        assert_eq!(om.filled_in_current_bin(), 1_200);
        assert_eq!(om.working_order_qty(), 0);
    }
}

#[test]
fn the_day_ends_after_the_last_bin() {
    let mut om = mock_setup();
    for _ in 0..NUM_BINS + 3 {
        om.on_bin_transition();
    }
    assert_eq!(om.state().current_bin, NUM_BINS);
    assert_eq!(om.on_market_trade(3_000, double(90.0)), None);
    assert_eq!(om.raw_bin_volume(), 0);
}

#[test]
fn a_repeated_tick_is_quiet() {
    let mut om = manager_with_threshold(1);
    assert_eq!(om.on_market_trade(3_000, double(90.0)), Some(OrderAction::NewOrder { qty: 1_000 }));
    assert_eq!(om.on_market_trade(0, double(90.0)), None);
}

#[test]
fn a_threshold_of_zero_answers_every_tick() {
    let mut om = manager_with_threshold(0);
    assert_eq!(om.on_market_trade(0, double(90.0)), Some(OrderAction::ModifyOrder { new_qty: 0 }));
    assert_eq!(om.on_market_trade(3_000, double(90.0)), Some(OrderAction::NewOrder { qty: 1_000 }));
    assert_eq!(om.on_market_trade(0, double(90.0)), Some(OrderAction::ModifyOrder { new_qty: 1_000 }));
}

#[test]
fn a_drift_of_the_threshold_is_acted_on() {
    let mut om = manager_with_threshold(1_000);
    assert_eq!(om.on_market_trade(3_000, double(90.0)), Some(OrderAction::NewOrder { qty: 1_000 }));
    let mut om = manager_with_threshold(1_001);
    assert_eq!(om.on_market_trade(3_000, double(90.0)), None);
    assert_eq!(om.working_order_qty(), 0);
}

#[test]
fn a_slowing_market_cancels_the_order() {
    let mut om = mock_setup();
    om.on_market_trade(3_000, double(90.0));
    // Only 1,400 of the 2,000 that have been asked for since are filled, and those already
    // exceed what the whole bin is worth at this pace.
    om.on_market_trade(3_000, double(90.0));
    assert_eq!(om.working_order_qty(), 2_000);
    om.on_execution_fill(1_400);
    assert_eq!(om.working_order_qty(), 600);
    assert_eq!(om.on_market_trade(0, double(300.0)), Some(OrderAction::CancelOrder));
    assert_eq!(om.working_order_qty(), 0);
}

#[test]
fn a_complete_order_wants_nothing() {
    let mut om = mock_setup();
    om.on_execution_fill(78_000);
    om.on_bin_transition();
    assert_eq!(om.on_market_trade(1_000_000, double(90.0)), None);
    assert_eq!(om.working_order_qty(), 0);
}

#[test]
fn the_elapsed_part_is_clamped() {
    // From 300 seconds on the volume is taken as it is; before 3 seconds it counts a hundredfold.
    for (elapsed, qty) in [
        (300.0, 300),
        (1.0e9, 300),
        (f64::INFINITY, 300),
        (3.0, 30_000),
        (0.0, 30_000),
        (-5.0, 30_000),
        (f64::NEG_INFINITY, 30_000),
    ] {
        let mut om = manager_with_threshold(1);
        let action = om.on_market_trade(3_000, double(elapsed));
        assert_eq!(action, Some(OrderAction::NewOrder { qty }), "at {elapsed}");
    }
    // No number of seconds, no volume.
    let mut om = manager_with_threshold(1);
    assert_eq!(om.on_market_trade(3_000, double(f64::NAN)), None);
    assert_eq!(om.raw_bin_volume(), 3_000);
}

#[test]
fn a_long_day_keeps_the_books() {
    let mut om = mock_setup();
    for i in 0..100_000u64 {
        let action = om.on_market_trade(100, double((i % 300) as f64));
        if let Some(OrderAction::NewOrder { qty }) = action {
            om.on_execution_fill(qty / 3);
        }
        let state = om.state();
        assert_eq!(state.executed_qty + state.remaining_qty, 78_000);
        assert!(om.working_order_qty() <= state.remaining_qty);
        if i % 2_000 == 1_999 {
            om.on_bin_transition();
        }
    }
}
