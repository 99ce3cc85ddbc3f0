//! The training orchestrator: epoch bookkeeping, exact metric aggregation,
//! and the early-stopping policy.
//!
//! The compute backend (forward pass, loss, backpropagation, optimizer step)
//! is an external collaborator: the caller drives one full training pass and
//! one full validation pass per epoch, accumulates per-batch metrics here,
//! and reports each epoch's summary to the run. Loss values enter as
//! fixed-point integers (the caller picks one scale, e.g. micro-units, and
//! keeps it); every metric is reduced over an epoch as the arithmetic mean of
//! its per-batch values, for the training and the validation stream alike,
//! and means are compared exactly by cross-multiplication, never by rounding.

use vstd::prelude::*;

verus! {

/// Which direction of the monitored metric counts as improvement.
#[derive(Clone, Copy, Debug, PartialEq, Eq, Structural)]
pub enum StopDirection {
    Minimize,
    Maximize,
}

/// Aggregated metrics of one pass: an exact loss sum over `loss_count`
/// batches, and a correct-prediction count over `total` examples.
#[derive(Clone, Copy, Debug, PartialEq, Eq, Structural)]
pub struct MetricSummary {
    /// Sum of the per-batch fixed-point loss values.
    pub loss_sum: u64,
    /// Number of batches the loss sum covers.
    pub loss_count: u64,
    /// Number of correctly predicted examples.
    pub correct: u64,
    /// Number of examples seen.
    pub total: u64,
}

impl MetricSummary {
    /// The all-zero summary of an empty pass.
    pub fn empty() -> (r: MetricSummary)
        ensures
            r == (MetricSummary { loss_sum: 0, loss_count: 0, correct: 0, total: 0 }),
    {
        MetricSummary { loss_sum: 0, loss_count: 0, correct: 0, total: 0 }
    }
}

/// Running metric aggregation over the batches of one pass.
pub struct MetricAccumulator {
    loss_sum: u64,
    loss_count: u64,
    correct: u64,
    total: u64,
}

impl View for MetricAccumulator {
    type V = MetricSummary;

    closed spec fn view(&self) -> MetricSummary {
        MetricSummary {
            loss_sum: self.loss_sum,
            loss_count: self.loss_count,
            correct: self.correct,
            total: self.total,
        }
    }
}

impl MetricAccumulator {
    /// Starts an empty aggregation.
    pub fn new() -> (r: MetricAccumulator)
        ensures
            r@ == (MetricSummary { loss_sum: 0, loss_count: 0, correct: 0, total: 0 }),
    {
        MetricAccumulator { loss_sum: 0, loss_count: 0, correct: 0, total: 0 }
    }

    /// Folds one batch's metrics in: its fixed-point loss value, how many of
    /// its examples were predicted correctly, and how many examples it held.
    pub fn record_batch(&mut self, loss: u64, correct: u64, total: u64)
        requires
            correct <= total,
            old(self)@.loss_sum + loss <= u64::MAX,
            old(self)@.loss_count + 1 <= u64::MAX,
            old(self)@.correct + correct <= u64::MAX,
            old(self)@.total + total <= u64::MAX,
        ensures
            final(self)@ == (MetricSummary {
                loss_sum: (old(self)@.loss_sum + loss) as u64,
                loss_count: (old(self)@.loss_count + 1) as u64,
                correct: (old(self)@.correct + correct) as u64,
                total: (old(self)@.total + total) as u64,
            }),
    {
        self.loss_sum = self.loss_sum + loss;
        self.loss_count = self.loss_count + 1;
        self.correct = self.correct + correct;
        self.total = self.total + total;
    }

    /// The summary aggregated so far.
    pub fn summary(&self) -> (s: MetricSummary)
        ensures
            s == self@,
    {
        MetricSummary {
            loss_sum: self.loss_sum,
            loss_count: self.loss_count,
            correct: self.correct,
            total: self.total,
        }
    }
}

/// Exact comparison of the epoch means `a_sum / a_count < b_sum / b_count`
/// by cross-multiplication.
pub open spec fn mean_lt(a_sum: int, a_count: int, b_sum: int, b_count: int) -> bool {
    a_sum * b_count < b_sum * a_count
}

/// Whether a new epoch mean strictly improves on the best one, in the given
/// direction.
pub open spec fn improves(
    dir: StopDirection,
    new_sum: int,
    new_count: int,
    best_sum: int,
    best_count: int,
) -> bool {
    match dir {
        StopDirection::Minimize => mean_lt(new_sum, new_count, best_sum, best_count),
        StopDirection::Maximize => mean_lt(best_sum, best_count, new_sum, new_count),
    }
}

/// Compares two epoch means exactly: whether `a_sum / a_count` is strictly
/// below `b_sum / b_count`, by cross-multiplying in 128 bits.
pub fn mean_less(a_sum: u64, a_count: u64, b_sum: u64, b_count: u64) -> (r: bool)
    ensures
        r == mean_lt(a_sum as int, a_count as int, b_sum as int, b_count as int),
{
    proof {
        assert((a_sum as int) * (b_count as int) <= 0xffff_ffff_ffff_ffff
            * 0xffff_ffff_ffff_ffff && (b_sum as int) * (a_count as int) <= 0xffff_ffff_ffff_ffff
            * 0xffff_ffff_ffff_ffff && (a_sum as int) * (b_count as int) >= 0 && (b_sum as int) * (
        a_count as int) >= 0) by (nonlinear_arith)
            requires
                0 <= a_sum as int <= 0xffff_ffff_ffff_ffff,
                0 <= b_sum as int <= 0xffff_ffff_ffff_ffff,
                0 <= a_count as int <= 0xffff_ffff_ffff_ffff,
                0 <= b_count as int <= 0xffff_ffff_ffff_ffff,
        ;
    }
    (a_sum as u128) * (b_count as u128) < (b_sum as u128) * (a_count as u128)
}

/// The epoch whose metric is the best seen so far.
#[derive(Clone, Copy, Debug, PartialEq, Eq, Structural)]
pub struct BestMetric {
    /// The epoch's one-based number.
    pub epoch: usize,
    /// The monitored metric's sum over that epoch.
    pub sum: u64,
    /// The number of batches the sum covers.
    pub count: u64,
}

/// The early-stopping policy: tracks the best epoch mean of one monitored
/// metric and asks to halt once a configured number of consecutive epochs
/// has passed without strict improvement.
#[derive(Clone, Copy)]
pub struct EarlyStopper {
    patience: usize,
    direction: StopDirection,
    epochs_seen: usize,
    best: Option<BestMetric>,
    since_best: usize,
}

impl EarlyStopper {
    #[verifier::type_invariant]
    spec fn wf(self) -> bool {
        self.since_best <= self.epochs_seen
    }

    /// How many consecutive epochs without improvement are tolerated.
    pub closed spec fn patience(&self) -> nat {
        self.patience as nat
    }

    /// The direction in which the metric improves.
    pub closed spec fn direction(&self) -> StopDirection {
        self.direction
    }

    /// How many epochs have been observed.
    pub closed spec fn epochs_seen(&self) -> nat {
        self.epochs_seen as nat
    }

    /// The best epoch so far, if any epoch has been observed.
    pub closed spec fn best(&self) -> Option<BestMetric> {
        self.best
    }

    /// How many epochs have passed since the best one.
    pub closed spec fn since_best(&self) -> nat {
        self.since_best as nat
    }

    /// Whether an epoch with this metric sum and count would strictly
    /// improve on the best epoch (a first epoch always does).
    pub open spec fn improves_best(&self, sum: u64, count: u64) -> bool {
        match self.best() {
            None => true,
            Some(b) => improves(
                self.direction(),
                sum as int,
                count as int,
                b.sum as int,
                b.count as int,
            ),
        }
    }

    /// A fresh policy that has observed nothing.
    pub fn new(patience: usize, direction: StopDirection) -> (r: EarlyStopper)
        requires
            patience >= 1,
        ensures
            r.patience() == patience,
            r.direction() == direction,
            r.epochs_seen() == 0,
            r.best() is None,
            r.since_best() == 0,
    {
        EarlyStopper { patience, direction, epochs_seen: 0, best: None, since_best: 0 }
    }

    /// Observes one epoch's aggregated metric (sum over a positive number of
    /// batches) and answers whether to stop: the patience is exhausted by
    /// consecutive epochs without strict improvement on the best mean.
    pub fn observe(&mut self, sum: u64, count: u64) -> (stop: bool)
        requires
            count >= 1,
            old(self).epochs_seen() < usize::MAX,
        ensures
            final(self).patience() == old(self).patience(),
            final(self).direction() == old(self).direction(),
            final(self).epochs_seen() == old(self).epochs_seen() + 1,
            old(self).improves_best(sum, count) ==> final(self).best() == Some(
                BestMetric { epoch: (old(self).epochs_seen() + 1) as usize, sum, count },
            ) && final(self).since_best() == 0,
            !old(self).improves_best(sum, count) ==> final(self).best() == old(self).best()
                && final(self).since_best() == old(self).since_best() + 1,
            stop == (final(self).since_best() >= final(self).patience()),
    {
        proof {
            use_type_invariant(&*self);
        }
        let improved = match self.best {
            None => true,
            Some(b) => {
                match self.direction {
                    StopDirection::Minimize => mean_less(sum, count, b.sum, b.count),
                    StopDirection::Maximize => mean_less(b.sum, b.count, sum, count),
                }
            },
        };
        let epochs_seen = self.epochs_seen + 1;
        if improved {
            *self = EarlyStopper {
                epochs_seen,
                best: Some(BestMetric { epoch: epochs_seen, sum, count }),
                since_best: 0,
                ..*self
            };
        } else {
            *self = EarlyStopper { epochs_seen, since_best: self.since_best + 1, ..*self };
        }
        self.since_best >= self.patience
    }
}

/// Where a training run stands.
#[derive(Clone, Copy, Debug, PartialEq, Eq, Structural)]
pub enum RunState {
    /// No epoch has been reported yet.
    NotStarted,
    /// Some epochs are done and the next one may run.
    Running {
        /// The one-based number of the epoch to run next.
        next_epoch: usize,
    },
    /// All configured epochs ran.
    Completed,
    /// The early-stopping policy halted the run.
    EarlyStopped {
        /// The one-based number of the epoch with the best monitored metric.
        best_epoch: usize,
    },
}

/// One epoch's aggregated training and validation metrics.
#[derive(Clone, Copy, Debug, PartialEq, Eq, Structural)]
pub struct EpochRecord {
    /// Metrics of the epoch's training pass.
    pub train: MetricSummary,
    /// Metrics of the epoch's validation pass, taken with the weights frozen
    /// after the training portion.
    pub valid: MetricSummary,
}

/// Whether an early stopper that observes this epoch mean would halt the
/// run.
pub open spec fn would_stop(st: EarlyStopper, sum: u64, count: u64) -> bool {
    !st.improves_best(sum, count) && st.since_best() + 1 >= st.patience()
}

/// The training orchestrator's state machine over epochs:
/// `NotStarted -> Running -> Completed | EarlyStopped`.
///
/// The caller performs the outside work of each epoch — one full training
/// pass with one backend step per batch, then one full validation pass on
/// the frozen weights — and reports the aggregated record here; the run
/// decides the next state. A backend or batch failure is fatal to the run:
/// the caller aborts instead of reporting the epoch, and nothing here
/// retries or skips. The monitored metric is the validation loss mean; the
/// final epoch's weights are the ones to persist (checkpointing on
/// completion, no rollback to the best epoch).
pub struct TrainingRun {
    num_epochs: usize,
    completed: usize,
    state: RunState,
    stopper: Option<EarlyStopper>,
    history: Vec<EpochRecord>,
}

impl TrainingRun {
    /// Validity of the run's bookkeeping: constructors establish it and
    /// `finish_epoch` preserves it.
    pub closed spec fn wf(self) -> bool {
        &&& self.num_epochs >= 1
        &&& self.completed <= self.num_epochs
        &&& self.history@.len() == self.completed
        &&& (match self.state {
            RunState::NotStarted => self.completed == 0,
            RunState::Running { next_epoch } => next_epoch == self.completed + 1 && self.completed
                < self.num_epochs,
            RunState::Completed => self.completed == self.num_epochs,
            RunState::EarlyStopped { .. } => true,
        })
        &&& (match self.stopper {
            Some(st) => st.epochs_seen() == self.completed && st.patience() >= 1,
            None => true,
        })
    }

    /// The configured number of epochs.
    pub closed spec fn num_epochs(&self) -> nat {
        self.num_epochs as nat
    }

    /// How many epochs have been reported.
    pub closed spec fn completed(&self) -> nat {
        self.completed as nat
    }

    /// The current lifecycle state.
    pub closed spec fn run_state(&self) -> RunState {
        self.state
    }

    /// The early-stopping policy, if one is configured.
    pub closed spec fn stopper(&self) -> Option<EarlyStopper> {
        self.stopper
    }

    /// The reported epoch records, in epoch order.
    pub closed spec fn history(&self) -> Seq<EpochRecord> {
        self.history@
    }

    /// Whether the run is over, by completion or by early stopping.
    pub open spec fn is_finished(&self) -> bool {
        self.run_state() is Completed || self.run_state() is EarlyStopped
    }

    /// A run of `num_epochs` epochs without early stopping.
    pub fn new(num_epochs: usize) -> (r: TrainingRun)
        requires
            num_epochs >= 1,
        ensures
            r.wf(),
            r.num_epochs() == num_epochs,
            r.completed() == 0,
            r.run_state() == RunState::NotStarted,
            r.stopper() is None,
            r.history() == Seq::<EpochRecord>::empty(),
    {
        let r = TrainingRun {
            num_epochs,
            completed: 0,
            state: RunState::NotStarted,
            stopper: None,
            history: Vec::new(),
        };
        proof {
            assert(r.history() =~= Seq::<EpochRecord>::empty());
        }
        r
    }

    /// A run of `num_epochs` epochs that halts once `patience` consecutive
    /// epochs have passed without the validation loss mean improving in
    /// `direction`.
    pub fn with_early_stopping(num_epochs: usize, patience: usize, direction: StopDirection) -> (r:
        TrainingRun)
        requires
            num_epochs >= 1,
            patience >= 1,
        ensures
            r.wf(),
            r.num_epochs() == num_epochs,
            r.completed() == 0,
            r.run_state() == RunState::NotStarted,
            r.history() == Seq::<EpochRecord>::empty(),
            r.stopper() matches Some(st) && st.patience() == patience && st.direction()
                == direction && st.epochs_seen() == 0 && st.best() is None && st.since_best() == 0,
    {
        let r = TrainingRun {
            num_epochs,
            completed: 0,
            state: RunState::NotStarted,
            stopper: Some(EarlyStopper::new(patience, direction)),
            history: Vec::new(),
        };
        proof {
            assert(r.history() =~= Seq::<EpochRecord>::empty());
        }
        r
    }

    /// The current lifecycle state.
    pub fn state(&self) -> (s: RunState)
        ensures
            s == self.run_state(),
    {
        self.state
    }

    /// The number of epochs reported so far.
    pub fn completed_epochs(&self) -> (n: usize)
        ensures
            n == self.completed(),
    {
        self.completed
    }

    /// The reported epoch records, in epoch order.
    pub fn epoch_history(&self) -> (h: &Vec<EpochRecord>)
        ensures
            h@ == self.history(),
    {
        &self.history
    }

    /// Reports one finished epoch: its aggregated training and validation
    /// metrics, measured as one full pass each. The run appends the record,
    /// feeds the validation loss mean to the early-stopping policy, and
    /// moves to `EarlyStopped` (with the best epoch), `Completed` (after the
    /// last epoch), or `Running` (otherwise).
    pub fn finish_epoch(&mut self, record: EpochRecord) -> (s: RunState)
        requires
            old(self).wf(),
            !old(self).is_finished(),
            old(self).stopper() is Some ==> record.valid.loss_count >= 1,
        ensures
            final(self).wf(),
            s == final(self).run_state(),
            final(self).num_epochs() == old(self).num_epochs(),
            final(self).completed() == old(self).completed() + 1,
            final(self).history() == old(self).history().push(record),
            old(self).stopper() is None ==> final(self).stopper() is None,
            old(self).stopper() matches Some(st) ==> final(self).stopper() matches Some(st2)
                && st2.patience() == st.patience() && st2.direction() == st.direction()
                && st2.epochs_seen() == st.epochs_seen() + 1 && (st.improves_best(
                record.valid.loss_sum,
                record.valid.loss_count,
            ) ==> st2.best() == Some(
                BestMetric {
                    epoch: (st.epochs_seen() + 1) as usize,
                    sum: record.valid.loss_sum,
                    count: record.valid.loss_count,
                },
            ) && st2.since_best() == 0) && (!st.improves_best(
                record.valid.loss_sum,
                record.valid.loss_count,
            ) ==> st2.best() == st.best() && st2.since_best() == st.since_best() + 1),
            final(self).run_state() == (match old(self).stopper() {
                Some(st) => {
                    if would_stop(st, record.valid.loss_sum, record.valid.loss_count) {
                        RunState::EarlyStopped { best_epoch: st.best().unwrap().epoch }
                    } else if old(self).completed() + 1 == old(self).num_epochs() {
                        RunState::Completed
                    } else {
                        RunState::Running { next_epoch: (old(self).completed() + 2) as usize }
                    }
                },
                None => {
                    if old(self).completed() + 1 == old(self).num_epochs() {
                        RunState::Completed
                    } else {
                        RunState::Running { next_epoch: (old(self).completed() + 2) as usize }
                    }
                },
            }),
    {
        self.history.push(record);
        self.completed = self.completed + 1;
        let mut stopped = false;
        let mut best_epoch: usize = 0;
        match self.stopper {
            Some(mut st) => {
                let stop = st.observe(record.valid.loss_sum, record.valid.loss_count);
                self.stopper = Some(st);
                if stop {
                    match st.best {
                        Some(b) => {
                            best_epoch = b.epoch;
                        },
                        None => {
                            proof {
                                assert(false);
                            }
                        },
                    }
                    stopped = true;
                }
            },
            None => {},
        }
        if stopped {
            self.state = RunState::EarlyStopped { best_epoch };
        } else if self.completed == self.num_epochs {
            self.state = RunState::Completed;
        } else {
            self.state = RunState::Running { next_epoch: self.completed + 1 };
        }
        self.state
    }
}

} // verus!
