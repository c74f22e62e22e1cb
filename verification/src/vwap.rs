//! Execution of a parent order along a volume-weighted average price curve.
//!
//! The trading day is cut into five-minute bins. A [`VwapScheduler`] sizes the child order of
//! the current bin from the curve, the live volume and a participation cap; an [`OrderManager`]
//! turns market ticks into exchange actions and skips those that are too small to matter.
use crate::binary64::{
    law_decoded_is_canonical, law_divided_by_itself, law_of_u64_is_finite, law_plus_is_monotone,
    law_plus_zero, law_rounded_is_monotone, law_small_integers_are_exact, law_times_is_monotone,
    law_times_one, law_to_u64_is_monotone, law_whole_part_is_monotone, lemma_normal_ratio,
    one_in_units, Double, Value, END_EXPONENT, UNIT_EXPONENT,
};
use crate::rounding::{
    law_rounding_is_exact, law_rounding_keeps_bounds, lemma_round_ratio_cancels,
    lemma_round_ratio_of_zero, lemma_scaled_is_representable, round_ratio, SIGNIFICAND_END,
};
use vstd::arithmetic::power2::*;
use vstd::prelude::*;

verus! {

/// Number of five-minute intervals in a trading day of six and a half hours.
pub const NUM_BINS: usize = 78;

/// The length of a bin in seconds.
pub const BIN_DURATION_SECS: u64 = 300;

/// Static configuration of a scheduler.
pub struct VwapConfig {
    pub parent_qty: u64,
    /// The share of each bin in the volume of the day; the shares add up to one.
    pub historical_weights: [Double; NUM_BINS],
    /// The largest share of the live volume that a child order may ask for.
    pub max_participation_rate: Double,
}

/// How far the execution of the parent order has come.
#[derive(Debug, Clone, Copy)]
pub struct VwapState {
    pub current_bin: usize,
    pub executed_qty: u64,
    pub remaining_qty: u64,
}

impl Default for VwapState {
    fn default() -> (state: VwapState)
        ensures
            state == (VwapState { current_bin: 0, executed_qty: 0, remaining_qty: 0 }),
    {
        VwapState { current_bin: 0, executed_qty: 0, remaining_qty: 0 }
    }
}

/// The weight of the bins from `k` on, added up from the last bin backwards.
pub open spec fn suffix_weight(weights: Seq<Double>, k: nat) -> Value
    decreases weights.len() - k,
{
    if k >= weights.len() {
        Value::Finite { negative: false, magnitude: 0 }
    } else {
        suffix_weight(weights, k + 1).plus(weights[k as int]@)
    }
}

/// What a scheduler stands for.
#[verifier::ext_equal]
pub struct SchedulerModel {
    pub parent_qty: u64,
    pub weights: Seq<Double>,
    pub max_participation_rate: Double,
    pub state: VwapState,
}

pub open spec fn smaller(a: u64, b: u64) -> u64 {
    if a <= b {
        a
    } else {
        b
    }
}

impl SchedulerModel {
    /// Nothing of the parent order is lost or invented, and the bin index stays in the day.
    pub open spec fn wf(self) -> bool {
        &&& self.weights.len() == NUM_BINS
        &&& self.state.executed_qty + self.state.remaining_qty == self.parent_qty
        &&& self.state.current_bin <= NUM_BINS
    }

    pub open spec fn in_session(self) -> bool {
        self.state.current_bin < NUM_BINS
    }

    /// What the curve leaves of the parent order to the current bin: the remaining quantity
    /// times the share of the bin in the bins that are left, and all of it where those have no
    /// weight.
    pub open spec fn base_slice(self) -> Value {
        let bin = self.state.current_bin;
        let remaining = Value::of_int(self.state.remaining_qty as nat);
        let weight_left = suffix_weight(self.weights, bin as nat);
        if (Value::Finite { negative: false, magnitude: 0 }).less_than(weight_left) {
            remaining.times(self.weights[bin as int]@.over(weight_left))
        } else {
            remaining
        }
    }

    /// The slice of the bin scaled by how live the market is, rounded to a whole quantity.
    pub open spec fn target(self, live_bin_volume: u64, expected_bin_volume: u64) -> u64 {
        self.base_slice().times(volume_ratio(live_bin_volume, expected_bin_volume)).plus(
            Value::of_ratio(1, 2),
        ).to_u64()
    }

    /// The largest quantity that keeps within the participation rate.
    pub open spec fn participation_cap(self, live_bin_volume: u64) -> u64 {
        Value::of_int(live_bin_volume as nat).times(self.max_participation_rate@).to_u64()
    }

    /// The target, held below the participation cap and below what remains.
    pub open spec fn child_order(self, live_bin_volume: u64, expected_bin_volume: u64) -> u64 {
        smaller(
            smaller(
                self.target(live_bin_volume, expected_bin_volume),
                self.participation_cap(live_bin_volume),
            ),
            self.state.remaining_qty,
        )
    }

    /// A fill executes at most what remains.
    pub open spec fn filled(self, filled_qty: u64) -> SchedulerModel {
        let fill = smaller(filled_qty, self.state.remaining_qty);
        SchedulerModel {
            state: VwapState {
                executed_qty: (self.state.executed_qty + fill) as u64,
                remaining_qty: (self.state.remaining_qty - fill) as u64,
                ..self.state
            },
            ..self
        }
    }

    /// The next bin; after the last one there is none.
    pub open spec fn advanced(self) -> SchedulerModel {
        SchedulerModel {
            state: VwapState {
                current_bin: if self.in_session() {
                    (self.state.current_bin + 1) as usize
                } else {
                    self.state.current_bin
                },
                ..self.state
            },
            ..self
        }
    }
}

/// How live the market is: the live volume in terms of the expected one, one where none is
/// expected.
pub open spec fn volume_ratio(live_bin_volume: u64, expected_bin_volume: u64) -> Value {
    if expected_bin_volume > 0 {
        Value::of_int(live_bin_volume as nat).over(Value::of_int(expected_bin_volume as nat))
    } else {
        Value::of_int(1)
    }
}

/// Sizes the child orders of a parent order.
pub struct VwapScheduler {
    config: VwapConfig,
    state: VwapState,
    /// `suffix_weights[k]` is the weight of the bins from `k` on.
    suffix_weights: [Double; NUM_BINS],
}

impl View for VwapScheduler {
    type V = SchedulerModel;

    closed spec fn view(&self) -> SchedulerModel {
        SchedulerModel {
            parent_qty: self.config.parent_qty,
            weights: self.config.historical_weights@,
            max_participation_rate: self.config.max_participation_rate,
            state: self.state,
        }
    }
}

fn min(a: u64, b: u64) -> (least: u64)
    ensures
        least == smaller(a, b),
{
    if a <= b {
        a
    } else {
        b
    }
}

impl VwapScheduler {
    /// The model is well-formed, and the suffix weights are those of the curve.
    pub closed spec fn wf(&self) -> bool {
        &&& self@.wf()
        &&& forall|k: int|
            0 <= k < NUM_BINS ==> (#[trigger] self.suffix_weights@[k])@ == suffix_weight(
                self.config.historical_weights@,
                k as nat,
            )
    }

    /// A scheduler at the start of the day, with all of the parent order to do.
    pub fn new(config: VwapConfig) -> (scheduler: VwapScheduler)
        ensures
            scheduler.wf(),
            scheduler@.wf(),
            scheduler@ == (SchedulerModel {
                parent_qty: config.parent_qty,
                weights: config.historical_weights@,
                max_participation_rate: config.max_participation_rate,
                state: VwapState {
                    current_bin: 0,
                    executed_qty: 0,
                    remaining_qty: config.parent_qty,
                },
            }),
    {
        let parent_qty: u64 = config.parent_qty;
        let mut suffix_weights = [Double { bits: 0 };NUM_BINS];
        let mut accum = Double { bits: 0 };
        let mut i: usize = NUM_BINS;
        while i > 0
            invariant
                i <= NUM_BINS,
                accum@ == suffix_weight(config.historical_weights@, i as nat),
                forall|k: int|
                    i <= k < NUM_BINS ==> (#[trigger] suffix_weights@[k])@ == suffix_weight(
                        config.historical_weights@,
                        k as nat,
                    ),
            decreases i,
        {
            i = i - 1;
            accum = accum.plus(config.historical_weights[i]);
            suffix_weights[i] = accum;
        }
        VwapScheduler {
            config,
            state: VwapState { current_bin: 0, executed_qty: 0, remaining_qty: parent_qty },
            suffix_weights,
        }
    }

    /// How far the execution has come.
    pub fn state(&self) -> (state: VwapState)
        ensures
            state == self@.state,
    {
        self.state
    }

    /// The quantity to ask for in the current bin, given the volume that the bin is heading for
    /// and the volume that was expected of it.
    pub fn calculate_child_order(
        &mut self,
        live_bin_volume: u64,
        expected_bin_volume: u64,
    ) -> (child_qty: u64)
        requires
            old(self).wf(),
            old(self)@.in_session(),
        ensures
            *final(self) == *old(self),
            child_qty == old(self)@.child_order(live_bin_volume, expected_bin_volume),
    {
        let bin: usize = self.state.current_bin;
        let weight_k = self.config.historical_weights[bin];
        let rem_weight = self.suffix_weights[bin];
        let remaining = Double::from_u64(self.state.remaining_qty);
        let base_slice = if (Double { bits: 0 }).less_than(rem_weight) {
            remaining.times(weight_k.over(rem_weight))
        } else {
            remaining
        };
        let live = Double::from_u64(live_bin_volume);
        let ratio = if expected_bin_volume > 0 {
            live.over(Double::from_u64(expected_bin_volume))
        } else {
            Double::one()
        };
        let target_unclamped = base_slice.times(ratio);
        let max_bin_qty: u64 = live.times(self.config.max_participation_rate).to_u64();
        let target_qty: u64 = target_unclamped.plus(Double::half()).to_u64();
        let clamped_qty: u64 = min(target_qty, max_bin_qty);
        min(clamped_qty, self.state.remaining_qty)
    }

    /// Books an execution.
    pub fn on_fill(&mut self, filled_qty: u64)
        requires
            old(self).wf(),
        ensures
            final(self).wf(),
            final(self)@.wf(),
            final(self)@ == old(self)@.filled(filled_qty),
            final(self)@ == (SchedulerModel { state: final(self)@.state, ..old(self)@ }),
            final(self)@.state.current_bin == old(self)@.state.current_bin,
            final(self)@.state.executed_qty == if old(self)@.state.executed_qty + filled_qty
                <= old(self)@.parent_qty {
                old(self)@.state.executed_qty + filled_qty
            } else {
                old(self)@.parent_qty as int
            },
    {
        let actual_fill: u64 = min(filled_qty, self.state.remaining_qty);
        self.state.executed_qty = self.state.executed_qty + actual_fill;
        self.state.remaining_qty = self.state.remaining_qty - actual_fill;
    }

    /// Moves on to the next bin.
    pub fn advance_bin(&mut self)
        requires
            old(self).wf(),
        ensures
            final(self).wf(),
            final(self)@.wf(),
            final(self)@ == old(self)@.advanced(),
            final(self)@ == (SchedulerModel {
                state: VwapState {
                    current_bin: final(self)@.state.current_bin,
                    ..old(self)@.state
                },
                ..old(self)@
            }),
            final(self)@.state.current_bin == if old(self)@.state.current_bin + 1 <= NUM_BINS {
                old(self)@.state.current_bin + 1
            } else {
                NUM_BINS as int
            },
    {
        if self.state.current_bin < NUM_BINS {
            self.state.current_bin = self.state.current_bin + 1;
        }
    }
}

/// What the exchange is told.
#[derive(Debug, PartialEq, Eq, Structural, Clone, Copy)]
pub enum OrderAction {
    NewOrder { qty: u64 },
    ModifyOrder { new_qty: u64 },
    CancelOrder,
}

/// What an order manager stands for.
#[verifier::ext_equal]
pub struct OrderManagerModel {
    pub scheduler: SchedulerModel,
    pub expected_bin_volumes: Seq<u64>,
    pub raw_bin_volume: u64,
    pub filled_in_current_bin: u64,
    pub working_order_qty: u64,
    pub min_trade_threshold: u64,
}

/// The part of the bin that is over, held between one hundredth and one.
pub open spec fn elapsed_fraction(elapsed_bin_secs: Value) -> Value {
    elapsed_bin_secs.over(Value::of_int(BIN_DURATION_SECS as nat)).clamped(
        Value::of_ratio(1, 100),
        Value::of_int(1),
    )
}

/// The volume that a bin is heading for, given what has traded so far.
pub open spec fn extrapolated_volume(raw_bin_volume: u64, elapsed_bin_secs: Value) -> u64 {
    Value::of_int(raw_bin_volume as nat).over(elapsed_fraction(elapsed_bin_secs)).to_u64()
}

/// The action that takes the working order to the wanted size: none where it is closer to that
/// size than the threshold.
pub open spec fn pacing_action(working: u64, wanted: u64, threshold: u64) -> Option<OrderAction> {
    if vstd::math::abs(wanted - working) < threshold {
        None
    } else if working == 0 && wanted > 0 {
        Some(OrderAction::NewOrder { qty: wanted })
    } else if working > 0 && wanted == 0 {
        Some(OrderAction::CancelOrder)
    } else {
        Some(OrderAction::ModifyOrder { new_qty: wanted })
    }
}

impl OrderManagerModel {
    /// The order at the exchange never asks for more than remains of the parent order.
    pub open spec fn wf(self) -> bool {
        &&& self.scheduler.wf()
        &&& self.expected_bin_volumes.len() == NUM_BINS
        &&& self.working_order_qty <= self.scheduler.state.remaining_qty
    }

    /// The manager once a trade of the market is counted in.
    pub open spec fn counted(self, trade_qty: u64) -> OrderManagerModel {
        OrderManagerModel { raw_bin_volume: (self.raw_bin_volume + trade_qty) as u64, ..self }
    }

    /// What the current bin still wants: its child order without what has been filled.
    pub open spec fn wanted(self, elapsed_bin_secs: Value) -> u64 {
        let child = self.scheduler.child_order(
            extrapolated_volume(self.raw_bin_volume, elapsed_bin_secs),
            self.expected_bin_volumes[self.scheduler.state.current_bin as int],
        );
        if child >= self.filled_in_current_bin {
            (child - self.filled_in_current_bin) as u64
        } else {
            0
        }
    }

    /// The action on a market trade that has been counted in.
    pub open spec fn action(self, elapsed_bin_secs: Value) -> Option<OrderAction> {
        pacing_action(
            self.working_order_qty,
            self.wanted(elapsed_bin_secs),
            self.min_trade_threshold,
        )
    }

    /// The manager once that action is taken.
    pub open spec fn acted(self, elapsed_bin_secs: Value) -> OrderManagerModel {
        if self.action(elapsed_bin_secs) is Some {
            OrderManagerModel { working_order_qty: self.wanted(elapsed_bin_secs), ..self }
        } else {
            self
        }
    }

    pub open spec fn filled(self, filled_qty: u64) -> OrderManagerModel {
        OrderManagerModel {
            scheduler: self.scheduler.filled(filled_qty),
            filled_in_current_bin: (self.filled_in_current_bin + filled_qty) as u64,
            working_order_qty: if filled_qty <= self.working_order_qty {
                (self.working_order_qty - filled_qty) as u64
            } else {
                0
            },
            ..self
        }
    }

    pub open spec fn in_next_bin(self) -> OrderManagerModel {
        OrderManagerModel {
            scheduler: self.scheduler.advanced(),
            raw_bin_volume: 0,
            filled_in_current_bin: 0,
            working_order_qty: 0,
            ..self
        }
    }
}

/// Turns market ticks into exchange actions.
pub struct OrderManager {
    scheduler: VwapScheduler,
    expected_bin_volumes: [u64; NUM_BINS],
    raw_bin_volume: u64,
    filled_in_current_bin: u64,
    working_order_qty: u64,
    /// Smaller changes of the working order are not sent.
    min_trade_threshold: u64,
}

impl View for OrderManager {
    type V = OrderManagerModel;

    closed spec fn view(&self) -> OrderManagerModel {
        OrderManagerModel {
            scheduler: self.scheduler@,
            expected_bin_volumes: self.expected_bin_volumes@,
            raw_bin_volume: self.raw_bin_volume,
            filled_in_current_bin: self.filled_in_current_bin,
            working_order_qty: self.working_order_qty,
            min_trade_threshold: self.min_trade_threshold,
        }
    }
}

impl OrderManager {
    pub closed spec fn wf(&self) -> bool {
        &&& self@.wf()
        &&& self.scheduler.wf()
    }

    /// A manager at the start of the day, with no order at the exchange.
    pub fn new(
        config: VwapConfig,
        expected_bin_volumes: [u64; NUM_BINS],
        min_trade_threshold: u64,
    ) -> (manager: OrderManager)
        ensures
            manager.wf(),
            manager@.wf(),
            manager@ == (OrderManagerModel {
                scheduler: SchedulerModel {
                    parent_qty: config.parent_qty,
                    weights: config.historical_weights@,
                    max_participation_rate: config.max_participation_rate,
                    state: VwapState {
                        current_bin: 0,
                        executed_qty: 0,
                        remaining_qty: config.parent_qty,
                    },
                },
                expected_bin_volumes: expected_bin_volumes@,
                raw_bin_volume: 0,
                filled_in_current_bin: 0,
                working_order_qty: 0,
                min_trade_threshold,
            }),
    {
        OrderManager {
            scheduler: VwapScheduler::new(config),
            expected_bin_volumes,
            raw_bin_volume: 0,
            filled_in_current_bin: 0,
            working_order_qty: 0,
            min_trade_threshold,
        }
    }

    /// How far the execution of the parent order has come.
    pub fn state(&self) -> (state: VwapState)
        ensures
            state == self@.scheduler.state,
    {
        self.scheduler.state()
    }

    /// The volume that the market has traded in the current bin.
    pub fn raw_bin_volume(&self) -> (volume: u64)
        ensures
            volume == self@.raw_bin_volume,
    {
        self.raw_bin_volume
    }

    /// What has been filled in the current bin.
    pub fn filled_in_current_bin(&self) -> (qty: u64)
        ensures
            qty == self@.filled_in_current_bin,
    {
        self.filled_in_current_bin
    }

    /// The quantity of the order at the exchange.
    pub fn working_order_qty(&self) -> (qty: u64)
        ensures
            qty == self@.working_order_qty,
    {
        self.working_order_qty
    }

    /// Takes in a trade of the market, `elapsed_bin_secs` into the current bin, and says what
    /// the exchange is to be told. After the last bin nothing happens any more.
    pub fn on_market_trade(
        &mut self,
        trade_qty: u64,
        elapsed_bin_secs: Double,
    ) -> (action: Option<OrderAction>)
        requires
            old(self).wf(),
            old(self)@.scheduler.in_session() ==> old(self)@.raw_bin_volume + trade_qty <= u64::MAX,
        ensures
            final(self).wf(),
            final(self)@.wf(),
            !old(self)@.scheduler.in_session() ==> action is None && final(self)@ == old(self)@,
            old(self)@.scheduler.in_session() ==> {
                &&& action == old(self)@.counted(trade_qty).action(elapsed_bin_secs@)
                &&& final(self)@ == old(self)@.counted(trade_qty).acted(elapsed_bin_secs@)
            },
            final(self)@ == old(self)@.after(
                Event::Trade { qty: trade_qty, elapsed_bin_secs: elapsed_bin_secs@ },
            ),
            final(self)@.scheduler == old(self)@.scheduler,
            final(self)@.filled_in_current_bin == old(self)@.filled_in_current_bin,
            final(self)@.expected_bin_volumes == old(self)@.expected_bin_volumes,
            final(self)@.min_trade_threshold == old(self)@.min_trade_threshold,
            old(self)@.scheduler.in_session() ==> final(self)@.raw_bin_volume
                == old(self)@.raw_bin_volume + trade_qty,
            match action {
                None => final(self)@.working_order_qty == old(self)@.working_order_qty,
                Some(OrderAction::NewOrder { qty }) => {
                    &&& old(self)@.working_order_qty == 0
                    &&& final(self)@.working_order_qty == qty > 0
                },
                Some(OrderAction::ModifyOrder { new_qty }) => final(self)@.working_order_qty
                    == new_qty,
                Some(OrderAction::CancelOrder) => {
                    &&& old(self)@.working_order_qty > 0
                    &&& final(self)@.working_order_qty == 0
                },
            },
    {
        let current_bin: usize = self.scheduler.state.current_bin;
        if current_bin >= NUM_BINS {
            return None;
        }
        self.raw_bin_volume = self.raw_bin_volume + trade_qty;
        let fraction = elapsed_bin_secs.over(Double::from_u64(BIN_DURATION_SECS)).clamped(
            Double::hundredth(),
            Double::one(),
        );
        let extrapolated_live_vol: u64 = Double::from_u64(self.raw_bin_volume).over(
            fraction,
        ).to_u64();
        let expected_vol: u64 = self.expected_bin_volumes[current_bin];
        let target_bin_qty: u64 = self.scheduler.calculate_child_order(
            extrapolated_live_vol,
            expected_vol,
        );
        let net_target_qty: u64 = target_bin_qty.saturating_sub(self.filled_in_current_bin);
        let drift: u64 = if net_target_qty >= self.working_order_qty {
            net_target_qty - self.working_order_qty
        } else {
            self.working_order_qty - net_target_qty
        };
        if drift >= self.min_trade_threshold {
            if self.working_order_qty == 0 && net_target_qty > 0 {
                self.working_order_qty = net_target_qty;
                Some(OrderAction::NewOrder { qty: net_target_qty })
            } else if net_target_qty == 0 && self.working_order_qty > 0 {
                self.working_order_qty = 0;
                Some(OrderAction::CancelOrder)
            } else {
                self.working_order_qty = net_target_qty;
                Some(OrderAction::ModifyOrder { new_qty: net_target_qty })
            }
        } else {
            None
        }
    }

    /// Takes in an execution of the working order.
    pub fn on_execution_fill(&mut self, filled_qty: u64)
        requires
            old(self).wf(),
            old(self)@.filled_in_current_bin + filled_qty <= u64::MAX,
        ensures
            final(self).wf(),
            final(self)@.wf(),
            final(self)@ == old(self)@.filled(filled_qty),
            final(self)@ == old(self)@.after(Event::Fill { qty: filled_qty }),
            final(self)@.filled_in_current_bin == old(self)@.filled_in_current_bin + filled_qty,
            final(self)@.raw_bin_volume == old(self)@.raw_bin_volume,
            final(self)@.expected_bin_volumes == old(self)@.expected_bin_volumes,
            final(self)@.min_trade_threshold == old(self)@.min_trade_threshold,
            final(self)@.working_order_qty == if filled_qty <= old(self)@.working_order_qty {
                old(self)@.working_order_qty - filled_qty
            } else {
                0
            },
    {
        self.scheduler.on_fill(filled_qty);
        self.filled_in_current_bin = self.filled_in_current_bin + filled_qty;
        self.working_order_qty = self.working_order_qty.saturating_sub(filled_qty);
    }

    /// Moves on to the next bin, at the boundary of two five-minute intervals.
    pub fn on_bin_transition(&mut self)
        requires
            old(self).wf(),
        ensures
            final(self).wf(),
            final(self)@.wf(),
            final(self)@ == old(self)@.in_next_bin(),
            final(self)@ == old(self)@.after(Event::NextBin),
            final(self)@ == (OrderManagerModel {
                scheduler: final(self)@.scheduler,
                raw_bin_volume: 0,
                filled_in_current_bin: 0,
                working_order_qty: 0,
                ..old(self)@
            }),
    {
        self.scheduler.advance_bin();
        self.raw_bin_volume = 0;
        self.filled_in_current_bin = 0;
        self.working_order_qty = 0;
    }
}

/// The model of a well-formed scheduler is well-formed.
pub proof fn law_scheduler_model_is_well_formed(scheduler: VwapScheduler)
    requires
        scheduler.wf(),
    ensures
        scheduler@.wf(),
{
}

/// The model of a well-formed order manager is well-formed.
pub proof fn law_manager_model_is_well_formed(manager: OrderManager)
    requires
        manager.wf(),
    ensures
        manager@.wf(),
{
}

/// A child order asks for no more than remains and for no more than the participation rate
/// allows.
pub proof fn law_child_order_is_bounded(
    scheduler: SchedulerModel,
    live_bin_volume: u64,
    expected_bin_volume: u64,
)
    ensures
        scheduler.child_order(live_bin_volume, expected_bin_volume)
            <= scheduler.state.remaining_qty,
        scheduler.child_order(live_bin_volume, expected_bin_volume)
            <= scheduler.participation_cap(live_bin_volume),
{
}

/// With a participation rate from zero to one, the participation cap is no more than the live
/// volume. Above `2^53` the live volume counts as the binary64 number closest to it.
pub proof fn law_cap_is_within_volume(scheduler: SchedulerModel, live_bin_volume: u64)
    requires
        scheduler.max_participation_rate@.nonnegative(),
        scheduler.max_participation_rate@ matches Value::Finite { magnitude, .. } && magnitude
            <= one_in_units(),
    ensures
        scheduler.participation_cap(live_bin_volume) <= Value::of_int(
            live_bin_volume as nat,
        ).to_u64(),
        live_bin_volume <= SIGNIFICAND_END ==> scheduler.participation_cap(live_bin_volume)
            <= live_bin_volume,
{
    law_of_u64_is_finite(live_bin_volume);
    let live = Value::of_int(live_bin_volume as nat);
    let x = live->Finite_magnitude;
    let y = scheduler.max_participation_rate@->Finite_magnitude;
    lemma_pow2_pos(UNIT_EXPONENT as nat);
    law_rounding_keeps_bounds(x * y, one_in_units(), x);
    assert(x * y <= x * one_in_units()) by (nonlinear_arith)
        requires
            y <= one_in_units(),
    ;
    law_to_u64_is_monotone(round_ratio(x * y, one_in_units()), x);
    if live_bin_volume <= SIGNIFICAND_END {
        law_small_integers_are_exact(live_bin_volume as nat);
    }
}

/// A market that trades what was expected, or of which nothing was expected, leaves the slice
/// of the bin as it is.
pub proof fn law_market_on_pace(volume: u64)
    ensures
        volume_ratio(volume, volume) == Value::of_int(1),
        volume_ratio(volume, 0) == Value::of_int(1),
{
    law_of_u64_is_finite(volume);
    if volume > 0 {
        let m = Value::of_int(volume as nat)->Finite_magnitude;
        law_divided_by_itself(false, m);
    }
}

/// How live the market is, is a finite number; it grows with the live volume and shrinks with
/// the expected one.
proof fn lemma_volume_ratio(live: u64, more: u64, expected: u64, less: u64)
    requires
        live <= more,
        expected == less || 0 < less <= expected,
    ensures
        volume_ratio(live, expected) is Finite,
        volume_ratio(more, less) is Finite,
        volume_ratio(live, expected).at_most(volume_ratio(more, less)),
{
    let one = one_in_units();
    lemma_pow2_pos(UNIT_EXPONENT as nat);
    law_small_integers_are_exact(1);
    lemma_ratio_is_finite(live, expected);
    lemma_ratio_is_finite(more, less);
    if expected > 0 {
        law_of_u64_is_finite(live);
        law_of_u64_is_finite(more);
        law_of_u64_is_finite(expected);
        law_of_u64_is_finite(less);
        let l = Value::of_int(live as nat)->Finite_magnitude;
        let m = Value::of_int(more as nat)->Finite_magnitude;
        let e = Value::of_int(expected as nat)->Finite_magnitude;
        let f = Value::of_int(less as nat)->Finite_magnitude;
        lemma_of_int_is_monotone(live, more);
        lemma_of_int_is_monotone(less, expected);
        assert((l * one) * f <= (m * one) * e) by (nonlinear_arith)
            requires
                l <= m,
                f <= e,
        ;
        law_rounded_is_monotone(l * one, e, m * one, f);
    }
}

proof fn lemma_of_int_is_monotone(a: u64, b: u64)
    requires
        a <= b,
    ensures
        Value::of_int(a as nat).at_most(Value::of_int(b as nat)),
{
    let one = one_in_units();
    assert(a as nat * one <= b as nat * one) by (nonlinear_arith)
        requires
            a <= b,
    ;
    law_rounded_is_monotone(a as nat * one, 1, b as nat * one, 1);
}

proof fn lemma_ratio_is_finite(live: u64, expected: u64)
    ensures
        volume_ratio(live, expected) is Finite,
        volume_ratio(live, expected).nonnegative(),
{
    let one = one_in_units();
    lemma_pow2_pos(UNIT_EXPONENT as nat);
    law_small_integers_are_exact(1);
    if expected > 0 {
        law_of_u64_is_finite(live);
        law_of_u64_is_finite(expected);
        let l = Value::of_int(live as nat)->Finite_magnitude;
        let e = Value::of_int(expected as nat)->Finite_magnitude;
        let bound = pow2(64 + UNIT_EXPONENT as nat);
        lemma_pow2_adds(64, UNIT_EXPONENT as nat);
        lemma_pow2_strictly_increases(64 + UNIT_EXPONENT as nat, END_EXPONENT as nat);
        lemma_scaled_is_representable(1, 64 + UNIT_EXPONENT as nat);
        assert(l * one <= bound * e) by (nonlinear_arith)
            requires
                l <= bound,
                one <= e,
        ;
        law_rounding_keeps_bounds(l * one, e, bound);
    }
}

/// Whether every bin has a weight from zero on.
pub open spec fn weights_are_not_negative(weights: Seq<Double>) -> bool {
    forall|k: int| 0 <= k < weights.len() ==> (#[trigger] weights[k])@.nonnegative()
}

/// With weights that are not negative, the weight of the bins from `k` on is not negative, and no
/// less than that of bin `k`.
pub proof fn law_weight_left_is_no_less_than_the_bins(weights: Seq<Double>, k: nat)
    requires
        weights_are_not_negative(weights),
        k <= weights.len(),
    ensures
        suffix_weight(weights, k).nonnegative(),
        k < weights.len() ==> weights[k as int]@.at_most(suffix_weight(weights, k)),
    decreases weights.len() - k,
{
    if k < weights.len() {
        law_weight_left_is_no_less_than_the_bins(weights, k + 1);
        let rest = suffix_weight(weights, k + 1);
        let weight = weights[k as int]@;
        law_decoded_is_canonical(weights[k as int].bits);
        if rest is Finite && weight is Finite {
            let x = rest->Finite_magnitude;
            let y = weight->Finite_magnitude;
            law_rounding_keeps_bounds(x + y, 1, y);
        }
    }
}

/// With weights that are not negative, the slice of a bin is a number from zero to what remains,
/// or not a number where weights are infinite.
pub proof fn law_slice_is_within_what_remains(scheduler: SchedulerModel)
    requires
        scheduler.wf(),
        scheduler.in_session(),
        weights_are_not_negative(scheduler.weights),
    ensures
        scheduler.base_slice() == Value::Nan || scheduler.base_slice() is Finite
            && scheduler.base_slice().nonnegative(),
        scheduler.base_slice() is Finite ==> scheduler.base_slice().at_most(
            Value::of_int(scheduler.state.remaining_qty as nat),
        ),
        scheduler.weights[scheduler.state.current_bin as int]@ is Finite
            ==> scheduler.base_slice() is Finite,
{
    let one = one_in_units();
    let bin = scheduler.state.current_bin;
    let weight = scheduler.weights[bin as int]@;
    let left = suffix_weight(scheduler.weights, bin as nat);
    lemma_pow2_pos(UNIT_EXPONENT as nat);
    lemma_pow2_strictly_increases(UNIT_EXPONENT as nat, END_EXPONENT as nat);
    law_weight_left_is_no_less_than_the_bins(scheduler.weights, bin as nat);
    law_of_u64_is_finite(scheduler.state.remaining_qty);
    let x = Value::of_int(scheduler.state.remaining_qty as nat)->Finite_magnitude;
    if (Value::Finite { negative: false, magnitude: 0 }).less_than(left) {
        let share = weight.over(left);
        if weight is Finite {
            let w = weight->Finite_magnitude;
            assert(share is Finite && share.nonnegative() && share->Finite_magnitude <= one) by {
                if let Value::Finite { magnitude, .. } = left {
                    lemma_round_ratio_of_zero(magnitude);
                    lemma_scaled_is_representable(1, UNIT_EXPONENT as nat);
                    assert(w * one <= one * magnitude && (w == 0 ==> w * one == 0))
                        by (nonlinear_arith)
                        requires
                            w <= magnitude,
                    ;
                    law_rounding_keeps_bounds(w * one, magnitude, one);
                }
            }
            let q = share->Finite_magnitude;
            assert(x * q <= x * one && (q == 0 ==> x * q == 0)) by (nonlinear_arith)
                requires
                    q <= one,
            ;
            lemma_round_ratio_of_zero(one);
            law_rounding_keeps_bounds(x * q, one, x);
        }
    }
}

/// Where the bins that are left have no weight, the current one is given all that remains.
pub proof fn law_without_weight_left_the_bin_takes_all(scheduler: SchedulerModel)
    requires
        !(Value::Finite { negative: false, magnitude: 0 }).less_than(
            suffix_weight(scheduler.weights, scheduler.state.current_bin as nat),
        ),
    ensures
        scheduler.base_slice() == Value::of_int(scheduler.state.remaining_qty as nat),
{
}

/// A bin whose own weight is zero or less, while bins that are left have weight, asks for nothing.
pub proof fn law_bin_without_weight_asks_for_nothing(
    scheduler: SchedulerModel,
    live_bin_volume: u64,
    expected_bin_volume: u64,
)
    requires
        scheduler.in_session(),
        (Value::Finite { negative: false, magnitude: 0 }).less_than(
            suffix_weight(scheduler.weights, scheduler.state.current_bin as nat),
        ),
        scheduler.weights[scheduler.state.current_bin as int]@ is Finite,
        !(Value::Finite { negative: false, magnitude: 0 }).less_than(
            scheduler.weights[scheduler.state.current_bin as int]@,
        ),
    ensures
        scheduler.child_order(live_bin_volume, expected_bin_volume) == 0,
{
    let one = one_in_units();
    let weight = scheduler.weights[scheduler.state.current_bin as int]@;
    let left = suffix_weight(scheduler.weights, scheduler.state.current_bin as nat);
    let remaining = Value::of_int(scheduler.state.remaining_qty as nat);
    let ratio = volume_ratio(live_bin_volume, expected_bin_volume);
    lemma_pow2_pos(UNIT_EXPONENT as nat);
    lemma_pow2_pos(END_EXPONENT as nat);
    law_of_u64_is_finite(scheduler.state.remaining_qty);
    lemma_ratio_is_finite(live_bin_volume, expected_bin_volume);
    lemma_half_is_less_than_one();
    lemma_round_ratio_of_zero(one);
    if left is Finite {
        lemma_round_ratio_of_zero(left->Finite_magnitude);
        lemma_zero_factor(weight->Finite_magnitude, one);
    }
    let share = weight.over(left);
    let x = remaining->Finite_magnitude;
    lemma_zero_factor(x, 0);
    if share is Finite {
        lemma_zero_factor(share->Finite_magnitude, x);
    }
    let slice = remaining.times(share);
    assert(scheduler.base_slice() == slice);
    assert(slice == Value::Infinite { negative: true } || slice is Finite && (slice->Finite_negative
        || slice->Finite_magnitude == 0) || slice == Value::Nan);
    if slice is Finite {
        lemma_zero_factor(slice->Finite_magnitude, ratio->Finite_magnitude);
    }
    let scaled = slice.times(ratio);
    if scaled is Finite {
        lemma_at_most_half(scaled);
    }
}

proof fn lemma_zero_factor(a: nat, b: nat)
    ensures
        a == 0 || b == 0 ==> a * b == 0 && b * a == 0,
{
    assert(a == 0 || b == 0 ==> a * b == 0 && b * a == 0) by (nonlinear_arith);
}

/// One half is `2^1073` units, less than one.
proof fn lemma_half_is_less_than_one()
    ensures
        Value::of_ratio(1, 2) == (Value::Finite {
            negative: false,
            magnitude: pow2((UNIT_EXPONENT - 1) as nat),
        }),
        2 * pow2((UNIT_EXPONENT - 1) as nat) == one_in_units(),
{
    let half = pow2((UNIT_EXPONENT - 1) as nat);
    lemma_pow2_unfold(UNIT_EXPONENT as nat);
    lemma_scaled_is_representable(1, (UNIT_EXPONENT - 1) as nat);
    law_rounding_is_exact(half, 2);
    assert(half * 2 == one_in_units());
    lemma_pow2_strictly_increases((UNIT_EXPONENT - 1) as nat, END_EXPONENT as nat);
}

/// A number that is zero or less has, with one half added, no whole part.
proof fn lemma_at_most_half(number: Value)
    requires
        number is Finite,
        number->Finite_negative || number->Finite_magnitude == 0,
    ensures
        number.plus(Value::of_ratio(1, 2)).to_u64() == 0,
{
    let half = pow2((UNIT_EXPONENT - 1) as nat);
    let one = one_in_units();
    lemma_half_is_less_than_one();
    lemma_pow2_pos((UNIT_EXPONENT - 1) as nat);
    lemma_scaled_is_representable(1, (UNIT_EXPONENT - 1) as nat);
    lemma_pow2_strictly_increases((UNIT_EXPONENT - 1) as nat, END_EXPONENT as nat);
    let m = number->Finite_magnitude;
    if m < half {
        law_rounding_keeps_bounds((half - m) as nat, 1, half);
        lemma_small_whole(round_ratio((half - m) as nat, 1));
    }
}

proof fn lemma_small_whole(m: nat)
    requires
        m < one_in_units(),
    ensures
        m / one_in_units() == 0,
{
    vstd::arithmetic::div_mod::lemma_basic_div(m as int, one_in_units() as int);
}

/// A participation rate below zero, or one that is not a number, allows nothing.
pub proof fn law_without_a_rate_nothing_is_asked_for(
    scheduler: SchedulerModel,
    live_bin_volume: u64,
    expected_bin_volume: u64,
)
    requires
        !scheduler.max_participation_rate@.nonnegative(),
    ensures
        scheduler.participation_cap(live_bin_volume) == 0,
        scheduler.child_order(live_bin_volume, expected_bin_volume) == 0,
{
    law_of_u64_is_finite(live_bin_volume);
    let x = Value::of_int(live_bin_volume as nat)->Finite_magnitude;
    if scheduler.max_participation_rate@ is Finite {
        lemma_zero_factor(x, scheduler.max_participation_rate@->Finite_magnitude);
    }
}

/// A child order is the smallest of the target, the participation cap and what remains: no more
/// than each of them, and one of them.
pub proof fn law_child_order_is_the_smallest_bound(
    scheduler: SchedulerModel,
    live_bin_volume: u64,
    expected_bin_volume: u64,
)
    ensures
        ({
            let child = scheduler.child_order(live_bin_volume, expected_bin_volume);
            let target = scheduler.target(live_bin_volume, expected_bin_volume);
            let cap = scheduler.participation_cap(live_bin_volume);
            let remaining = scheduler.state.remaining_qty;
            &&& child <= target
            &&& child <= cap
            &&& child <= remaining
            &&& child == target || child == cap || child == remaining
        }),
{
}

/// The target of a bin does not shrink where more is traded or less was expected, for weights
/// that are not negative and any participation rate.
pub proof fn law_target_follows_the_volume(
    scheduler: SchedulerModel,
    live: u64,
    more: u64,
    expected: u64,
    less: u64,
)
    requires
        scheduler.wf(),
        scheduler.in_session(),
        weights_are_not_negative(scheduler.weights),
        live <= more,
        expected == less || 0 < less <= expected,
    ensures
        scheduler.target(live, expected) <= scheduler.target(more, less),
{
    let base = scheduler.base_slice();
    let half = Value::of_ratio(1, 2);
    law_slice_is_within_what_remains(scheduler);
    if base is Finite {
        lemma_volume_ratio(live, more, expected, less);
        lemma_half_is_finite();
        let a = base.times(volume_ratio(live, expected));
        let b = base.times(volume_ratio(more, less));
        law_times_is_monotone(volume_ratio(live, expected), volume_ratio(more, less), base);
        law_plus_is_monotone(a, b, half);
        law_whole_part_is_monotone(a.plus(half), b.plus(half));
    }
}

/// The participation cap does not shrink where more is traded, for a rate that is not negative.
pub proof fn law_cap_follows_the_volume(scheduler: SchedulerModel, live: u64, more: u64)
    requires
        scheduler.max_participation_rate@.nonnegative(),
        live <= more,
    ensures
        scheduler.participation_cap(live) <= scheduler.participation_cap(more),
{
    let rate = scheduler.max_participation_rate@;
    let a = Value::of_int(live as nat);
    let b = Value::of_int(more as nat);
    law_of_u64_is_finite(live);
    law_of_u64_is_finite(more);
    if rate is Finite {
        lemma_of_int_is_monotone(live, more);
        law_times_is_monotone(a, b, rate);
        law_whole_part_is_monotone(a.times(rate), b.times(rate));
    }
}

/// A child order does not shrink where more is traded or less was expected, for weights that are
/// not negative. Where more is traded, the participation rate must not be negative either.
pub proof fn law_child_order_follows_the_volume(
    scheduler: SchedulerModel,
    live: u64,
    more: u64,
    expected: u64,
    less: u64,
)
    requires
        scheduler.wf(),
        scheduler.in_session(),
        weights_are_not_negative(scheduler.weights),
        live == more || live < more && scheduler.max_participation_rate@.nonnegative(),
        expected == less || 0 < less <= expected,
    ensures
        scheduler.child_order(live, expected) <= scheduler.child_order(more, less),
{
    law_target_follows_the_volume(scheduler, live, more, expected, less);
    if live < more {
        law_cap_follows_the_volume(scheduler, live, more);
    }
}

/// The last bin is given all that remains, whatever its weight, and asks for it where the market
/// trades what was expected or more and the participation cap allows. A weight of infinity, which
/// is no share of anything, is left out.
pub proof fn law_last_bin_takes_the_rest(scheduler: SchedulerModel, live: u64, expected: u64)
    requires
        scheduler.wf(),
        scheduler.state.current_bin == NUM_BINS - 1,
        scheduler.weights[NUM_BINS - 1]@ != (Value::Infinite { negative: false }),
    ensures
        scheduler.base_slice() == Value::of_int(scheduler.state.remaining_qty as nat),
        ({
            &&& expected <= live
            &&& scheduler.state.remaining_qty <= SIGNIFICAND_END
            &&& scheduler.participation_cap(live) >= scheduler.state.remaining_qty
        }) ==> scheduler.child_order(live, expected) == scheduler.state.remaining_qty,
{
    let weight = scheduler.weights[NUM_BINS - 1]@;
    let remaining = scheduler.state.remaining_qty;
    let whole = Value::of_int(remaining as nat);
    law_decoded_is_canonical(scheduler.weights[NUM_BINS - 1].bits);
    reveal_with_fuel(suffix_weight, 2);
    law_of_u64_is_finite(remaining);
    law_times_one(whole);
    if weight != (Value::Finite { negative: true, magnitude: 0 }) {
        law_plus_zero(weight);
        assert(suffix_weight(scheduler.weights, (NUM_BINS - 1) as nat) == weight);
    }
    if let Value::Finite { negative, magnitude } = weight {
        if !negative && magnitude > 0 {
            law_divided_by_itself(false, magnitude);
        }
    }
    if expected <= live && remaining <= SIGNIFICAND_END {
        law_market_on_pace(expected);
        law_small_integers_are_exact(remaining as nat);
        lemma_half_is_finite();
        let half = Value::of_ratio(1, 2);
        lemma_volume_ratio(expected, live, expected, expected);
        law_small_integers_are_exact(1);
        let ratio = volume_ratio(live, expected);
        law_times_is_monotone(Value::of_int(1), ratio, whole);
        law_plus_is_monotone(whole, whole.times(ratio), half);
        law_whole_part_is_monotone(whole.plus(half), whole.times(ratio).plus(half));
        let x = remaining as nat * one_in_units();
        law_rounding_keeps_bounds(x + half->Finite_magnitude, 1, x);
        law_to_u64_is_monotone(x, round_ratio(x + half->Finite_magnitude, 1));
    }
}

proof fn lemma_half_is_finite()
    ensures
        Value::of_ratio(1, 2) matches Value::Finite { negative, .. } && !negative,
{
    let one = one_in_units();
    lemma_scaled_is_representable(1, UNIT_EXPONENT as nat);
    law_rounding_keeps_bounds(one, 2, one);
    lemma_pow2_pos(UNIT_EXPONENT as nat);
    lemma_pow2_strictly_increases(UNIT_EXPONENT as nat, END_EXPONENT as nat);
}

/// `1 / 100` is positive and at most `1 / 64`, and one and the length of a bin are exact.
proof fn lemma_constants()
    ensures
        0 < one_in_units(),
        Value::of_int(1) == (Value::Finite { negative: false, magnitude: one_in_units() }),
        Value::of_int(300) == (Value::Finite { negative: false, magnitude: 300 * one_in_units() }),
        Value::of_ratio(1, 100) matches Value::Finite { negative, magnitude } && !negative && 0
            < magnitude <= pow2((UNIT_EXPONENT - 6) as nat),
        64 * pow2((UNIT_EXPONENT - 6) as nat) == one_in_units(),
{
    let one = one_in_units();
    lemma2_to64();
    law_small_integers_are_exact(1);
    law_small_integers_are_exact(300);
    lemma_pow2_pos(UNIT_EXPONENT as nat);
    lemma_pow2_strictly_increases(UNIT_EXPONENT as nat, END_EXPONENT as nat);
    // 1 / 128 <= 1 / 100 <= 1 / 64
    lemma_scaled_is_representable(1, (UNIT_EXPONENT - 7) as nat);
    lemma_scaled_is_representable(1, (UNIT_EXPONENT - 6) as nat);
    lemma_pow2_adds(7, (UNIT_EXPONENT - 7) as nat);
    lemma_pow2_adds(6, (UNIT_EXPONENT - 6) as nat);
    lemma_pow2_pos((UNIT_EXPONENT - 7) as nat);
    law_rounding_keeps_bounds(one, 100, pow2((UNIT_EXPONENT - 7) as nat));
    law_rounding_keeps_bounds(one, 100, pow2((UNIT_EXPONENT - 6) as nat));
}

/// The elapsed part of a bin is never below one hundredth and never above one, whatever number
/// of seconds is given; so nothing is ever divided by zero.
pub proof fn law_elapsed_fraction_is_clamped(elapsed_bin_secs: Value)
    requires
        elapsed_bin_secs != Value::Nan,
    ensures
        elapsed_fraction(elapsed_bin_secs) matches Value::Finite { negative, magnitude }
            && !negative && Value::of_ratio(1, 100)->Finite_magnitude <= magnitude
            <= one_in_units() && 0 < magnitude,
{
    lemma_constants();
}

/// Where the number of seconds is not a number, no volume is extrapolated.
pub proof fn law_extrapolation_of_nan(raw_bin_volume: u64)
    ensures
        elapsed_fraction(Value::Nan) == Value::Nan,
        extrapolated_volume(raw_bin_volume, Value::Nan) == 0,
{
}

/// What a bin is heading for is no less than what has traded. Above `2^53` the traded volume
/// counts as the binary64 number closest to it.
pub proof fn law_extrapolation_does_not_shrink(raw_bin_volume: u64, elapsed_bin_secs: Value)
    requires
        elapsed_bin_secs != Value::Nan,
    ensures
        extrapolated_volume(raw_bin_volume, elapsed_bin_secs) >= Value::of_int(
            raw_bin_volume as nat,
        ).to_u64(),
        raw_bin_volume <= SIGNIFICAND_END ==> extrapolated_volume(raw_bin_volume, elapsed_bin_secs)
            >= raw_bin_volume,
{
    law_elapsed_fraction_is_clamped(elapsed_bin_secs);
    law_of_u64_is_finite(raw_bin_volume);
    let x = Value::of_int(raw_bin_volume as nat)->Finite_magnitude;
    let y = elapsed_fraction(elapsed_bin_secs)->Finite_magnitude;
    let one = one_in_units();
    assert(x * y <= x * one) by (nonlinear_arith)
        requires
            y <= one,
    ;
    law_rounding_keeps_bounds(x * one, y, x);
    law_to_u64_is_monotone(x, round_ratio(x * one, y));
    if raw_bin_volume <= SIGNIFICAND_END {
        law_small_integers_are_exact(raw_bin_volume as nat);
    }
}

/// Once the five minutes are over, a bin is heading for what has traded in it.
pub proof fn law_extrapolation_after_the_bin(raw_bin_volume: u64, elapsed_bin_secs: Value)
    requires
        elapsed_bin_secs != Value::Nan,
        !elapsed_bin_secs.less_than(Value::of_int(BIN_DURATION_SECS as nat)),
    ensures
        elapsed_fraction(elapsed_bin_secs) == Value::of_int(1),
        extrapolated_volume(raw_bin_volume, elapsed_bin_secs) == Value::of_int(
            raw_bin_volume as nat,
        ).to_u64(),
        raw_bin_volume <= SIGNIFICAND_END ==> extrapolated_volume(raw_bin_volume, elapsed_bin_secs)
            == raw_bin_volume,
{
    let one = one_in_units();
    lemma_constants();
    if let Value::Finite { negative, magnitude } = elapsed_bin_secs {
        assert(!negative && magnitude >= 300 * one);
        lemma_scaled_is_representable(1, UNIT_EXPONENT as nat);
        assert(one * (300 * one) <= magnitude * one) by (nonlinear_arith)
            requires
                magnitude >= 300 * one,
        ;
        law_rounding_keeps_bounds(magnitude * one, 300 * one, one);
    }
    law_of_u64_is_finite(raw_bin_volume);
    let x = Value::of_int(raw_bin_volume as nat)->Finite_magnitude;
    law_rounding_is_exact(x, one);
    if raw_bin_volume <= SIGNIFICAND_END {
        law_small_integers_are_exact(raw_bin_volume as nat);
    }
}

/// The first three seconds of a bin count alike: as one hundredth of it.
pub proof fn law_extrapolation_at_the_start(raw_bin_volume: u64, elapsed_bin_secs: Value)
    requires
        elapsed_bin_secs != Value::Nan,
        !Value::of_int(3).less_than(elapsed_bin_secs),
    ensures
        elapsed_fraction(elapsed_bin_secs) == Value::of_ratio(1, 100),
        extrapolated_volume(raw_bin_volume, elapsed_bin_secs) == extrapolated_volume(
            raw_bin_volume,
            Value::of_int(0),
        ),
{
    lemma_start_of_bin(elapsed_bin_secs);
    law_small_integers_are_exact(0);
    law_small_integers_are_exact(3);
    lemma_constants();
    lemma_start_of_bin(Value::of_int(0));
}

proof fn lemma_start_of_bin(elapsed_bin_secs: Value)
    requires
        elapsed_bin_secs != Value::Nan,
        !Value::of_int(3).less_than(elapsed_bin_secs),
    ensures
        elapsed_fraction(elapsed_bin_secs) == Value::of_ratio(1, 100),
{
    let one = one_in_units();
    lemma_constants();
    law_small_integers_are_exact(3);
    let hundredth = Value::of_ratio(1, 100)->Finite_magnitude;
    if let Value::Finite { negative, magnitude } = elapsed_bin_secs {
        if !negative {
            // 3 / 300 is 1 / 100, rounded alike.
            lemma_quotient_of_integers(3, 300);
            assert(Value::of_ratio(3, 300) == Value::of_ratio(1, 100)) by {
                lemma_round_ratio_cancels(one, 100, 3);
                assert(one * 3 == 3 * one);
            }
            assert((magnitude * one) * (300 * one) <= ((3 * one) * one) * (300 * one))
                by (nonlinear_arith)
                requires
                    magnitude <= 3 * one,
            ;
            law_rounded_is_monotone(magnitude * one, 300 * one, (3 * one) * one, 300 * one);
        }
    }
}

/// `a / b` of two whole numbers is the binary64 number closest to the quotient.
proof fn lemma_quotient_of_integers(a: nat, b: nat)
    requires
        a <= SIGNIFICAND_END,
        0 < b <= SIGNIFICAND_END,
    ensures
        Value::of_int(a).over(Value::of_int(b)) == Value::of_ratio(a, b),
{
    let one = one_in_units();
    lemma_pow2_pos(UNIT_EXPONENT as nat);
    law_small_integers_are_exact(a);
    law_small_integers_are_exact(b);
    lemma_round_ratio_cancels(a * one, b, one);
}

/// Where 3,000 have traded after a minute and a half, which is three tenths of a bin, the bin is
/// heading for 10,000.
pub proof fn law_three_thousand_in_ninety_seconds()
    ensures
        extrapolated_volume(3_000, Value::of_int(90)) == 10_000,
{
    let one = one_in_units();
    lemma2_to64();
    lemma2_to64_rest();
    lemma_constants();
    // The significand of 90 / 300, in units of 2^-54.
    let s: nat = 0x13_3333_3333_3333;
    let unit = pow2((UNIT_EXPONENT - 54) as nat);
    lemma_pow2_pos((UNIT_EXPONENT - 54) as nat);
    lemma_pow2_adds(54, (UNIT_EXPONENT - 54) as nat);
    lemma_quotient_of_integers(90, 300);
    lemma_normal_ratio(
        0x3fd3_3333_3333_3333,
        0x13_3333_3333_3333,
        (UNIT_EXPONENT - 54) as u64,
        90,
        300,
    );
    lemma_pow2_adds(48, (UNIT_EXPONENT - 54) as nat);
    assert(elapsed_fraction(Value::of_int(90)) == (Value::Finite {
        negative: false,
        magnitude: s * unit,
    }));
    // 3,000 over that rounds to 10,000.
    let n: nat = 3_000 * pow2(54);
    law_small_integers_are_exact(3_000);
    law_small_integers_are_exact(10_000);
    assert((3_000 * one) * one == (n * one) * unit) by (nonlinear_arith)
        requires
            one == pow2(54) * unit,
            n == 3_000 * pow2(54),
    ;
    lemma_round_ratio_cancels(n * one, s, unit);
    let h = (UNIT_EXPONENT - 39) as u64;
    lemma_normal_ratio(0x40c3_8800_0000_0000, 0x13_8800_0000_0000, h, n, s);
    lemma_normal_ratio(0x40c3_8800_0000_0000, 0x13_8800_0000_0000, h, 10_000, 1);
}

/// The suffix weights are built from the last bin backwards: the last bin has its own weight,
/// every other bin its weight on top of the bins after it.
pub proof fn law_suffix_weights(weights: Seq<Double>, k: nat)
    requires
        k < weights.len(),
    ensures
        suffix_weight(weights, weights.len()) == (Value::Finite { negative: false, magnitude: 0 }),
        weights.last()@ != (Value::Finite { negative: true, magnitude: 0 }) ==> suffix_weight(
            weights,
            (weights.len() - 1) as nat,
        ) == weights.last()@,
        suffix_weight(weights, k) == suffix_weight(weights, k + 1).plus(weights[k as int]@),
{
    law_decoded_is_canonical(weights.last().bits);
    if weights.last()@ != (Value::Finite { negative: true, magnitude: 0 }) {
        law_plus_zero(weights.last()@);
    }
    reveal_with_fuel(suffix_weight, 2);
}

/// Two fills come to the same as one fill of both quantities.
pub proof fn law_fills_add_up(manager: OrderManagerModel, a: u64, b: u64)
    requires
        manager.wf(),
        manager.filled_in_current_bin + a + b <= u64::MAX,
    ensures
        manager.scheduler.filled(a).filled(b) == manager.scheduler.filled((a + b) as u64),
        manager.filled(a).filled(b) == manager.filled((a + b) as u64),
{
}

/// A fill of all that remains, or of more, completes the parent order and does no more than
/// that.
pub proof fn law_overfill_completes(scheduler: SchedulerModel, filled_qty: u64)
    requires
        scheduler.wf(),
        filled_qty >= scheduler.state.remaining_qty,
    ensures
        scheduler.filled(filled_qty).state.executed_qty == scheduler.parent_qty,
        scheduler.filled(filled_qty).state.remaining_qty == 0,
{
}

/// The scheduler `n` bins later.
pub open spec fn advanced_by(scheduler: SchedulerModel, n: nat) -> SchedulerModel
    decreases n,
{
    if n == 0 {
        scheduler
    } else {
        advanced_by(scheduler, (n - 1) as nat).advanced()
    }
}

/// The day ends after the last bin, however often the scheduler is told to go on, and going on
/// executes nothing.
pub proof fn law_day_ends_after_the_last_bin(scheduler: SchedulerModel, n: nat)
    requires
        scheduler.wf(),
    ensures
        advanced_by(scheduler, n) == (SchedulerModel {
            state: VwapState {
                current_bin: if scheduler.state.current_bin + n <= NUM_BINS {
                    (scheduler.state.current_bin + n) as usize
                } else {
                    NUM_BINS
                },
                ..scheduler.state
            },
            ..scheduler
        }),
    decreases n,
{
    if n > 0 {
        law_day_ends_after_the_last_bin(scheduler, (n - 1) as nat);
    }
}

/// An order that is sent asks, together with what the bin has been filled, for no more than
/// remains of the parent order and no more than the participation rate allows.
pub proof fn law_orders_are_bounded(manager: OrderManagerModel, elapsed_bin_secs: Value)
    requires
        manager.scheduler.in_session(),
    ensures
        ({
            let wanted = manager.wanted(elapsed_bin_secs);
            let volume = extrapolated_volume(manager.raw_bin_volume, elapsed_bin_secs);
            &&& wanted <= manager.scheduler.state.remaining_qty
            &&& wanted > 0 ==> wanted + manager.filled_in_current_bin
                <= manager.scheduler.state.remaining_qty
            &&& wanted > 0 ==> wanted + manager.filled_in_current_bin
                <= manager.scheduler.participation_cap(volume)
            &&& manager.action(elapsed_bin_secs) matches Some(OrderAction::NewOrder { qty })
                ==> qty == wanted
            &&& manager.action(elapsed_bin_secs) matches Some(OrderAction::ModifyOrder { new_qty })
                ==> new_qty == wanted
        }),
{
}

/// An action fits the order that is working: a new order where there is none, a cancellation or
/// a change where there is one. The exception is a threshold of zero, with which a change to
/// nothing is sent where there is nothing.
pub proof fn law_actions_fit_the_working_order(working: u64, wanted: u64, threshold: u64)
    ensures
        pacing_action(working, wanted, threshold) is None <==> wanted - working < threshold
            && working - wanted < threshold,
        pacing_action(working, wanted, threshold) matches Some(OrderAction::NewOrder { qty })
            ==> working == 0 && qty == wanted && qty > 0,
        pacing_action(working, wanted, threshold) == Some(OrderAction::CancelOrder) ==> working > 0
            && wanted == 0,
        pacing_action(working, wanted, threshold) matches Some(OrderAction::ModifyOrder { new_qty })
            ==> new_qty == wanted && ((working > 0 && new_qty > 0) || (threshold == 0 && working
            == 0 && new_qty == 0)),
{
}

/// An action is sent exactly where the working order is off by the threshold or more; the
/// working order is then what the bin wants, and else is left as it is.
pub proof fn law_pacing(manager: OrderManagerModel, elapsed_bin_secs: Value)
    ensures
        ({
            let wanted = manager.wanted(elapsed_bin_secs);
            let off = vstd::math::abs(wanted - manager.working_order_qty);
            let after = manager.acted(elapsed_bin_secs);
            &&& manager.action(elapsed_bin_secs) is Some <==> off >= manager.min_trade_threshold
            &&& manager.action(elapsed_bin_secs) is Some ==> after.working_order_qty == wanted
            &&& manager.action(elapsed_bin_secs) is None ==> after == manager
        }),
{
}

/// The exchange is not told the same thing twice: after an action, or a tick that called for
/// none, a tick without volume at the same time calls for none.
pub proof fn law_repeated_tick_is_quiet(manager: OrderManagerModel, elapsed_bin_secs: Value)
    requires
        manager.min_trade_threshold > 0,
    ensures
        manager.acted(elapsed_bin_secs).counted(0).action(elapsed_bin_secs) is None,
{
}

/// Once the parent order is complete, no bin wants anything, and no order is sent any more.
pub proof fn law_complete_order_wants_nothing(manager: OrderManagerModel, elapsed_bin_secs: Value)
    requires
        manager.wf(),
        manager.scheduler.state.remaining_qty == 0,
    ensures
        manager.wanted(elapsed_bin_secs) == 0,
        manager.working_order_qty == 0,
        manager.min_trade_threshold > 0 ==> manager.action(elapsed_bin_secs) is None,
{
}

/// What can happen to an order manager.
pub enum Event {
    /// The market trades, so many seconds into the bin.
    Trade { qty: u64, elapsed_bin_secs: Value },
    /// The working order is filled.
    Fill { qty: u64 },
    /// A bin ends.
    NextBin,
}

impl OrderManagerModel {
    /// Whether the quantities of the bin, with those of the event added, are still numbers of
    /// 64 bits.
    pub open spec fn takes(self, event: Event) -> bool {
        match event {
            Event::Trade { qty, .. } => self.scheduler.in_session() ==> self.raw_bin_volume + qty
                <= u64::MAX,
            Event::Fill { qty } => self.filled_in_current_bin + qty <= u64::MAX,
            Event::NextBin => true,
        }
    }

    pub open spec fn after(self, event: Event) -> OrderManagerModel {
        match event {
            Event::Trade { qty, elapsed_bin_secs } => if self.scheduler.in_session() {
                self.counted(qty).acted(elapsed_bin_secs)
            } else {
                self
            },
            Event::Fill { qty } => self.filled(qty),
            Event::NextBin => self.in_next_bin(),
        }
    }

    pub open spec fn takes_all(self, events: Seq<Event>) -> bool
        decreases events.len(),
    {
        events.len() == 0 || {
            &&& self.takes_all(events.drop_last())
            &&& self.after_all(events.drop_last()).takes(events.last())
        }
    }

    pub open spec fn after_all(self, events: Seq<Event>) -> OrderManagerModel
        decreases events.len(),
    {
        if events.len() == 0 {
            self
        } else {
            self.after_all(events.drop_last()).after(events.last())
        }
    }
}

/// Whatever happens during the day, executed and remaining quantity add up to the parent order,
/// the working order stays within what remains, nothing executed is taken back, no bin comes
/// back, and the configuration stays as it is.
pub proof fn law_day_keeps_the_books(manager: OrderManagerModel, events: Seq<Event>)
    requires
        manager.wf(),
        manager.takes_all(events),
    ensures
        ({
            let after = manager.after_all(events);
            &&& after.wf()
            &&& after.scheduler.state.executed_qty >= manager.scheduler.state.executed_qty
            &&& after.scheduler.state.current_bin >= manager.scheduler.state.current_bin
            &&& after.scheduler.parent_qty == manager.scheduler.parent_qty
            &&& after.scheduler.weights == manager.scheduler.weights
            &&& after.scheduler.max_participation_rate == manager.scheduler.max_participation_rate
            &&& after.expected_bin_volumes == manager.expected_bin_volumes
            &&& after.min_trade_threshold == manager.min_trade_threshold
        }),
    decreases events.len(),
{
    if events.len() > 0 {
        law_day_keeps_the_books(manager, events.drop_last());
    }
}

/// The quantities that were filled in a run of events, added up.
pub open spec fn total_filled(events: Seq<Event>) -> nat
    decreases events.len(),
{
    if events.len() == 0 {
        0
    } else {
        total_filled(events.drop_last()) + match events.last() {
            Event::Fill { qty } => qty as nat,
            _ => 0,
        }
    }
}

/// What has been executed at the end is what was filled, held at the parent quantity.
pub proof fn law_executed_is_what_was_filled(manager: OrderManagerModel, events: Seq<Event>)
    requires
        manager.wf(),
        manager.takes_all(events),
    ensures
        manager.after_all(events).scheduler.state.executed_qty == {
            let total = manager.scheduler.state.executed_qty + total_filled(events);
            if total <= manager.scheduler.parent_qty {
                total
            } else {
                manager.scheduler.parent_qty as int
            }
        },
    decreases events.len(),
{
    if events.len() > 0 {
        law_executed_is_what_was_filled(manager, events.drop_last());
        law_day_keeps_the_books(manager, events.drop_last());
    }
}

/// Only fills execute: a tick of the market and the end of a bin leave the executed and the
/// remaining quantity alone, and the end of a bin takes the working order off.
pub proof fn law_only_fills_execute(manager: OrderManagerModel, event: Event)
    requires
        !(event is Fill),
    ensures
        manager.after(event).scheduler.state.executed_qty == manager.scheduler.state.executed_qty,
        manager.after(event).scheduler.state.remaining_qty == manager.scheduler.state.remaining_qty,
        event is NextBin ==> manager.after(event).working_order_qty == 0 && manager.after(
            event,
        ).raw_bin_volume == 0 && manager.after(event).filled_in_current_bin == 0,
{
}

/// Of the expected volumes only that of the current bin counts: two managers that differ in the
/// expected volumes of other bins only want the same, do the same and are left the same but for
/// those volumes.
pub proof fn law_only_the_bins_own_expectation_counts(
    manager: OrderManagerModel,
    other: OrderManagerModel,
    elapsed_bin_secs: Value,
)
    requires
        manager.wf(),
        manager.scheduler.in_session(),
        other == (OrderManagerModel {
            expected_bin_volumes: other.expected_bin_volumes,
            ..manager
        }),
        other.expected_bin_volumes.len() == NUM_BINS,
        other.expected_bin_volumes[manager.scheduler.state.current_bin as int]
            == manager.expected_bin_volumes[manager.scheduler.state.current_bin as int],
    ensures
        manager.wanted(elapsed_bin_secs) == other.wanted(elapsed_bin_secs),
        manager.action(elapsed_bin_secs) == other.action(elapsed_bin_secs),
        other.acted(elapsed_bin_secs) == (OrderManagerModel {
            expected_bin_volumes: other.expected_bin_volumes,
            ..manager.acted(elapsed_bin_secs)
        }),
{
}

/// What a bin wants, together with what it has been filled, is the child order for the volume
/// that the bin is heading for, against the volume that was expected of this very bin; it wants
/// nothing where it has been filled that much already.
pub proof fn law_wanted_and_filled_make_the_child_order(
    manager: OrderManagerModel,
    elapsed_bin_secs: Value,
)
    requires
        manager.wf(),
        manager.scheduler.in_session(),
    ensures
        ({
            let bin = manager.scheduler.state.current_bin as int;
            let child = manager.scheduler.child_order(
                extrapolated_volume(manager.raw_bin_volume, elapsed_bin_secs),
                manager.expected_bin_volumes[bin],
            );
            let wanted = manager.wanted(elapsed_bin_secs);
            &&& wanted > 0 ==> wanted + manager.filled_in_current_bin == child
            &&& wanted == 0 <==> child <= manager.filled_in_current_bin
        }),
{
}

/// The quantities that the market traded in a run of events, added up.
pub open spec fn total_traded(events: Seq<Event>) -> nat
    decreases events.len(),
{
    if events.len() == 0 {
        0
    } else {
        total_traded(events.drop_last()) + match events.last() {
            Event::Trade { qty, .. } => qty as nat,
            _ => 0,
        }
    }
}

/// How many bins end in a run of events.
pub open spec fn bins_ended(events: Seq<Event>) -> nat
    decreases events.len(),
{
    if events.len() == 0 {
        0
    } else {
        bins_ended(events.drop_last()) + match events.last() {
            Event::NextBin => 1nat,
            _ => 0,
        }
    }
}

/// The current bin is the number of bins that have ended, up to the end of the day.
pub proof fn law_bin_is_the_number_of_bins_ended(manager: OrderManagerModel, events: Seq<Event>)
    requires
        manager.wf(),
        manager.takes_all(events),
    ensures
        manager.after_all(events).scheduler.state.current_bin == {
            let bin = manager.scheduler.state.current_bin + bins_ended(events);
            if bin <= NUM_BINS {
                bin
            } else {
                NUM_BINS as int
            }
        },
    decreases events.len(),
{
    if events.len() > 0 {
        law_bin_is_the_number_of_bins_ended(manager, events.drop_last());
    }
}

/// While no bin ends, what the bin has been filled grows by what is filled, and its volume by
/// what is traded, up to the end of the day.
pub proof fn law_bin_adds_up(manager: OrderManagerModel, events: Seq<Event>)
    requires
        manager.wf(),
        manager.takes_all(events),
        bins_ended(events) == 0,
    ensures
        ({
            let after = manager.after_all(events);
            &&& after.filled_in_current_bin == manager.filled_in_current_bin + total_filled(events)
            &&& manager.scheduler.in_session() ==> after.raw_bin_volume == manager.raw_bin_volume
                + total_traded(events)
            &&& !manager.scheduler.in_session() ==> after.raw_bin_volume == manager.raw_bin_volume
            &&& after.scheduler.state.current_bin == manager.scheduler.state.current_bin
        }),
    decreases events.len(),
{
    if events.len() > 0 {
        law_bin_adds_up(manager, events.drop_last());
    }
}

proof fn lemma_after_all_in_parts(
    manager: OrderManagerModel,
    first: Seq<Event>,
    second: Seq<Event>,
)
    requires
        manager.takes_all(first + second),
    ensures
        manager.takes_all(first),
        manager.after_all(first).takes_all(second),
        manager.after_all(first + second) == manager.after_all(first).after_all(second),
    decreases second.len(),
{
    if second.len() == 0 {
        assert(first + second == first);
    } else {
        assert((first + second).drop_last() == first + second.drop_last());
        lemma_after_all_in_parts(manager, first, second.drop_last());
    }
}

/// In every bin, what the bin has been filled is the sum of what was filled since the bin before
/// it ended, and its volume the sum of what was traded since then.
pub proof fn law_bin_starts_from_nothing(
    manager: OrderManagerModel,
    before: Seq<Event>,
    since: Seq<Event>,
)
    requires
        manager.wf(),
        manager.takes_all(before.push(Event::NextBin) + since),
        bins_ended(since) == 0,
    ensures
        ({
            let after = manager.after_all(before.push(Event::NextBin) + since);
            &&& after.filled_in_current_bin == total_filled(since)
            &&& after.scheduler.in_session() ==> after.raw_bin_volume == total_traded(since)
            &&& !after.scheduler.in_session() ==> after.raw_bin_volume == 0
        }),
{
    let first = before.push(Event::NextBin);
    lemma_after_all_in_parts(manager, first, since);
    law_day_keeps_the_books(manager, first);
    assert(first.drop_last() == before);
    law_bin_adds_up(manager.after_all(first), since);
}

/// A fill takes its quantity off the working order, as far as the order goes.
pub proof fn law_fill_uses_up_the_working_order(manager: OrderManagerModel, filled_qty: u64)
    ensures
        ({
            let left = manager.after(Event::Fill { qty: filled_qty }).working_order_qty;
            &&& filled_qty <= manager.working_order_qty ==> left + filled_qty
                == manager.working_order_qty
            &&& filled_qty >= manager.working_order_qty ==> left == 0
        }),
{
}

/// After the last bin, a tick of the market changes nothing.
pub proof fn law_market_is_ignored_after_the_day(
    manager: OrderManagerModel,
    qty: u64,
    elapsed_bin_secs: Value,
)
    requires
        manager.scheduler.state.current_bin >= NUM_BINS,
    ensures
        manager.after(Event::Trade { qty, elapsed_bin_secs }) == manager,
{
}

} // verus!
