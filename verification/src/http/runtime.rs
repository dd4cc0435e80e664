//! The state of the indexing loop from round to round: how much was processed, how fast, and
//! when to say so.

use vstd::prelude::*;

use crate::http::moving_average::{
    law_average_is_of_all_readings, Average, MovingAverage, MovingAverageView,
};
use crate::time::now_millis;

verus! {

/// The window over which the rate of the loop is averaged.
pub const WINDOW_MILLIS: u64 = 10_000;

/// What the loop carries from one round to the next.
pub struct IndexingLoop {
    ma: MovingAverage,
    versions_processed: u64,
    base: u64,
    emit_every: u64,
}

/// `base` counts how often `emit_every` transactions have been processed.
#[verifier::ext_equal]
pub struct IndexingLoopView {
    pub ma: MovingAverageView,
    pub versions_processed: u64,
    pub base: u64,
    pub emit_every: u64,
}

/// What is said about the progress of the loop.
#[derive(Debug, Clone, Copy, PartialEq, Eq, Structural)]
pub struct Progress {
    pub versions_processed: u64,
    pub average: Option<Average>,
}

impl View for IndexingLoop {
    type V = IndexingLoopView;

    closed spec fn view(&self) -> IndexingLoopView {
        IndexingLoopView {
            ma: self.ma@,
            versions_processed: self.versions_processed,
            base: self.base,
            emit_every: self.emit_every,
        }
    }
}

impl IndexingLoopView {
    /// A round can be counted.
    pub open spec fn accepts(self, now_millis: u64, num_res: u64) -> bool {
        self.ma.accepts(now_millis, num_res) && self.versions_processed + num_res <= u64::MAX
    }

    /// The state after a round of `num_res` transactions that ended at `now_millis`.
    pub open spec fn finish_round(self, now_millis: u64, num_res: u64) -> Self {
        let versions_processed = (self.versions_processed + num_res) as u64;
        IndexingLoopView {
            ma: self.ma.tick(now_millis, num_res),
            versions_processed,
            base: if self.emit_every == 0 {
                self.base
            } else {
                versions_processed / self.emit_every
            },
            emit_every: self.emit_every,
        }
    }
}

/// Progress is reported where `base` moved, and then as it is after the round.
pub open spec fn is_progress_of(
    before: IndexingLoopView,
    after: IndexingLoopView,
    progress: Option<Progress>,
) -> bool {
    match progress {
        Some(progress) => {
            &&& before.base != after.base
            &&& progress.versions_processed == after.versions_processed
            &&& after.ma.averages_to(progress.average)
        },
        None => before.base == after.base,
    }
}

impl IndexingLoop {
    pub closed spec fn well_formed(&self) -> bool {
        self.ma.well_formed()
    }

    /// A loop that has processed nothing yet and reports progress every `emit_every`
    /// transactions, or never where that is 0.
    pub fn new(emit_every: u64) -> (indexing: Self)
        ensures
            indexing.well_formed(),
            indexing@ == (IndexingLoopView {
                ma: MovingAverageView { window_millis: WINDOW_MILLIS, readings: Seq::empty() },
                versions_processed: 0,
                base: 0,
                emit_every,
            }),
            indexing@.ma.window_millis == 10_000,
    {
        IndexingLoop {
            ma: MovingAverage::new(WINDOW_MILLIS),
            versions_processed: 0,
            base: 0,
            emit_every,
        }
    }

    /// Counts a round that ended at a given time.
    pub fn finish_round_at(&mut self, now_millis: u64, num_res: u64) -> (progress: Option<Progress>)
        requires
            old(self).well_formed(),
            old(self)@.accepts(now_millis, num_res),
        ensures
            final(self).well_formed(),
            final(self)@ == old(self)@.finish_round(now_millis, num_res),
            is_progress_of(old(self)@, final(self)@, progress),
    {
        let _ = self.ma.tick(now_millis, num_res);
        self.versions_processed += num_res;
        if self.emit_every != 0 {
            let new_base: u64 = self.versions_processed / self.emit_every;
            if self.base != new_base {
                self.base = new_base;
                return Some(
                    Progress {
                        versions_processed: self.versions_processed,
                        average: self.ma.avg(),
                    },
                );
            }
        }
        None
    }

    /// Whether a round that ended at a given time can be counted.
    pub fn can_finish_round_at(&self, now_millis: u64, num_res: u64) -> (ok: bool)
        requires
            self.well_formed(),
        ensures
            ok == self@.accepts(now_millis, num_res),
    {
        num_res <= u64::MAX - self.versions_processed && self.ma.can_tick(now_millis, num_res)
    }

    /// Counts a round that ends now. Where the clock does not allow it, or a count would
    /// overflow, there is no outcome and nothing changes.
    pub fn finish_round(&mut self, num_res: u64) -> (outcome: Option<Option<Progress>>)
        requires
            old(self).well_formed(),
        ensures
            final(self).well_formed(),
            exists|now: u64|
                {
                    &&& outcome is Some <==> #[trigger] old(self)@.accepts(now, num_res)
                    &&& match outcome {
                        Some(progress) => {
                            &&& final(self)@ == old(self)@.finish_round(now, num_res)
                            &&& is_progress_of(old(self)@, final(self)@, progress)
                        },
                        None => final(self)@ == old(self)@,
                    }
                },
    {
        let now = now_millis();
        if self.can_finish_round_at(now, num_res) {
            Some(self.finish_round_at(now, num_res))
        } else {
            None
        }
    }
}

/// `base` is in step with what was processed.
pub open spec fn is_in_step(state: IndexingLoopView) -> bool {
    state.emit_every != 0 ==> state.base == state.versions_processed / state.emit_every
}

/// A loop starts in step and stays so.
pub proof fn law_base_stays_in_step(
    state: IndexingLoopView,
    emit_every: u64,
    now_millis: u64,
    num_res: u64,
)
    requires
        is_in_step(state),
    ensures
        is_in_step(
            IndexingLoopView {
                ma: MovingAverageView { window_millis: WINDOW_MILLIS, readings: Seq::empty() },
                versions_processed: 0,
                base: 0,
                emit_every,
            },
        ),
        is_in_step(state.finish_round(now_millis, num_res)),
{
    if emit_every != 0 {
        assert(0u64 / emit_every == 0) by (nonlinear_arith)
            requires
                emit_every != 0,
        ;
    }
}

/// Progress is reported in just those rounds in which the number of processed transactions
/// reaches or passes a multiple of `emit_every`; with 0 it never is.
pub proof fn law_progress_at_multiples(
    state: IndexingLoopView,
    now_millis: u64,
    num_res: u64,
    progress: Option<Progress>,
)
    requires
        is_in_step(state),
        state.accepts(now_millis, num_res),
        is_progress_of(state, state.finish_round(now_millis, num_res), progress),
    ensures
        progress is Some <==> exists|k: int|
            state.emit_every != 0 && state.versions_processed < #[trigger] (k * state.emit_every)
                <= state.versions_processed + num_res,
{
    let e = state.emit_every as int;
    let v = state.versions_processed as int;
    let w = v + num_res;
    if e != 0 {
        if v / e != w / e {
            let k = w / e;
            assert(v < k * e && k * e <= w) by (nonlinear_arith)
                requires
                    e > 0,
                    0 <= v <= w,
                    k == w / e,
                    v / e != k,
            ;
            assert(state.versions_processed < (k * state.emit_every) <= state.versions_processed
                + num_res);
        } else {
            assert forall|k: int| !(v < #[trigger] (k * e) && k * e <= w) by {
                assert(!(v < k * e && k * e <= w)) by (nonlinear_arith)
                    requires
                        e > 0,
                        0 <= v <= w,
                        v / e == w / e,
                ;
            }
        }
    }
}

/// Which rounds can be counted: those whose transactions the count of all has room for, and whose
/// end the moving average can take as a reading.
pub proof fn law_round_can_be_counted(state: IndexingLoopView, now_millis: u64, num_res: u64)
    ensures
        state.accepts(now_millis, num_res) <==> state.versions_processed + num_res <= u64::MAX
            && state.ma.accepts(now_millis, num_res),
{
}

/// What counting a round does: its transactions are added to those processed, and are a reading of
/// the moving average. `base` moves, and progress is reported, just where the number processed,
/// divided by `emit_every`, is another than `base`; with 0 it never does. What is reported is the
/// number processed, this round included, and the average of all readings in the window.
pub proof fn law_round_is_counted(
    state: IndexingLoopView,
    now_millis: u64,
    num_res: u64,
    progress: Option<Progress>,
)
    requires
        state.accepts(now_millis, num_res),
        is_progress_of(state, state.finish_round(now_millis, num_res), progress),
    ensures
        ({
            let after = state.finish_round(now_millis, num_res);
            let processed = state.versions_processed + num_res;
            &&& after.versions_processed == processed
            &&& after.emit_every == state.emit_every
            &&& after.ma == state.ma.tick(now_millis, num_res)
            &&& state.emit_every == 0 ==> after.base == state.base
            &&& state.emit_every != 0 ==> after.base == processed / state.emit_every as int
            &&& progress is Some <==> state.emit_every != 0 && state.base != processed
                / state.emit_every as int
            &&& progress is Some ==> progress->0.versions_processed == processed
            &&& progress is Some ==> (progress->0.average is Some <==> after.ma.readings.len()
                >= 2)
            &&& progress is Some && progress->0.average is Some
                ==> progress->0.average->0.sum == after.ma.readings.fold_left(
                0,
                |sum: int, reading: (u64, u64)| sum + reading.1,
            ) && progress->0.average->0.elapsed_millis == after.ma.readings[
                after.ma.readings.len() - 1].0 - after.ma.readings[0].0
        }),
{
    let after = state.finish_round(now_millis, num_res);
    if let Some(reported) = progress {
        law_average_is_of_all_readings(after.ma, reported.average);
    }
}

} // verus!
