use mnist_pipeline::training::{
    mean_less, EarlyStopper, EpochRecord, MetricAccumulator, MetricSummary, RunState,
    StopDirection, TrainingRun,
};

fn epoch(valid_loss: u64) -> EpochRecord {
    EpochRecord {
        train: MetricSummary { loss_sum: 0, loss_count: 1, correct: 0, total: 0 },
        valid: MetricSummary { loss_sum: valid_loss, loss_count: 1, correct: 0, total: 0 },
    }
}

#[test]
fn early_stopping_halts_after_patience_without_improvement() {
    // validation losses 1.0, 0.9, 0.95, 0.96, 0.97 (in milli-units) with
    // patience 3, minimizing: stop after epoch 5, best epoch 2
    let mut run = TrainingRun::with_early_stopping(10, 3, StopDirection::Minimize);
    assert_eq!(run.state(), RunState::NotStarted);
    assert_eq!(run.finish_epoch(epoch(1000)), RunState::Running { next_epoch: 2 });
    assert_eq!(run.finish_epoch(epoch(900)), RunState::Running { next_epoch: 3 });
    assert_eq!(run.finish_epoch(epoch(950)), RunState::Running { next_epoch: 4 });
    assert_eq!(run.finish_epoch(epoch(960)), RunState::Running { next_epoch: 5 });
    assert_eq!(run.finish_epoch(epoch(970)), RunState::EarlyStopped { best_epoch: 2 });
    assert_eq!(run.completed_epochs(), 5);
    assert_eq!(run.epoch_history().len(), 5);
    assert_eq!(run.epoch_history()[1], epoch(900));
}

#[test]
fn run_without_stopper_completes_all_epochs() {
    let mut run = TrainingRun::new(3);
    assert_eq!(run.finish_epoch(epoch(500)), RunState::Running { next_epoch: 2 });
    assert_eq!(run.finish_epoch(epoch(600)), RunState::Running { next_epoch: 3 });
    assert_eq!(run.finish_epoch(epoch(700)), RunState::Completed);
    assert_eq!(run.completed_epochs(), 3);
}

#[test]
fn improving_metric_never_stops_early() {
    let mut run = TrainingRun::with_early_stopping(4, 2, StopDirection::Minimize);
    assert_eq!(run.finish_epoch(epoch(400)), RunState::Running { next_epoch: 2 });
    assert_eq!(run.finish_epoch(epoch(300)), RunState::Running { next_epoch: 3 });
    assert_eq!(run.finish_epoch(epoch(200)), RunState::Running { next_epoch: 4 });
    assert_eq!(run.finish_epoch(epoch(100)), RunState::Completed);
}

#[test]
fn maximize_direction_tracks_the_highest_mean() {
    let mut stopper = EarlyStopper::new(2, StopDirection::Maximize);
    assert!(!stopper.observe(10, 1));
    assert!(!stopper.observe(20, 1));
    assert!(!stopper.observe(15, 1));
    // second epoch without improving on 20: patience 2 exhausted
    assert!(stopper.observe(19, 1));
}

#[test]
fn equal_means_do_not_count_as_improvement() {
    let mut stopper = EarlyStopper::new(2, StopDirection::Minimize);
    assert!(!stopper.observe(10, 1));
    // 20 / 2 equals 10 / 1: no strict improvement
    assert!(!stopper.observe(20, 2));
    assert!(stopper.observe(30, 3));
}

#[test]
fn mean_comparison_is_exact_cross_multiplication() {
    // 1/3 < 2/5 because 5 < 6
    assert!(mean_less(1, 3, 2, 5));
    assert!(!mean_less(2, 5, 1, 3));
    // equal means are not less
    assert!(!mean_less(2, 4, 1, 2));
    // huge values do not overflow
    assert!(mean_less(u64::MAX - 1, u64::MAX, u64::MAX, u64::MAX));
}

#[test]
fn accumulator_sums_batches_exactly() {
    let mut acc = MetricAccumulator::new();
    acc.record_batch(250, 30, 32);
    acc.record_batch(125, 31, 32);
    acc.record_batch(100, 10, 16);
    let s = acc.summary();
    assert_eq!(s.loss_sum, 475);
    assert_eq!(s.loss_count, 3);
    assert_eq!(s.correct, 71);
    assert_eq!(s.total, 80);
}
