//! The rate at which something happens, over a window of time that ends at the last reading.

use std::collections::VecDeque;
use vstd::prelude::*;

use crate::time::now_millis;

verus! {

/// Readings of a value over time.
pub struct MovingAverage {
    window_millis: u64,
    // (timestamp_millis, value)
    values: VecDeque<(u64, u64)>,
    sum: u64,
}

/// The average is `sum / elapsed_millis`.
#[derive(Debug, Clone, Copy, PartialEq, Eq, Structural)]
pub struct Average {
    pub sum: u64,
    pub elapsed_millis: u64,
}

/// The width of the window and the readings in it, (timestamp in milliseconds, value), the
/// oldest first.
#[verifier::ext_equal]
pub struct MovingAverageView {
    pub window_millis: u64,
    pub readings: Seq<(u64, u64)>,
}

/// The sum of the values.
pub open spec fn total(readings: Seq<(u64, u64)>) -> int
    decreases readings.len(),
{
    if readings.len() == 0 {
        0
    } else {
        total(readings.drop_last()) + readings.last().1
    }
}

/// The readings without those in front that are from before the window that ends at `now`.
pub open spec fn without_stale(window: u64, now: u64, readings: Seq<(u64, u64)>) -> Seq<(u64, u64)>
    decreases readings.len(),
{
    if readings.len() > 0 && now - readings[0].0 > window {
        without_stale(window, now, readings.drop_first())
    } else {
        readings
    }
}

impl MovingAverageView {
    /// The state after a new reading.
    pub open spec fn tick(self, timestamp_millis: u64, value: u64) -> Self {
        MovingAverageView {
            readings: without_stale(
                self.window_millis,
                timestamp_millis,
                self.readings.push((timestamp_millis, value)),
            ),
            ..self
        }
    }

    /// A new reading can be taken: the sum of the values does not overflow, and the oldest
    /// reading that stays is not from the future.
    pub open spec fn accepts(self, timestamp_millis: u64, value: u64) -> bool {
        &&& total(self.readings) + value <= u64::MAX
        &&& self.tick(timestamp_millis, value).readings[0].0 <= timestamp_millis
    }

    /// The average is the sum of the values over the time between the first and the last
    /// reading; there is none for fewer than two readings.
    pub open spec fn averages_to(self, average: Option<Average>) -> bool {
        match average {
            Some(average) => {
                &&& self.readings.len() >= 2
                &&& average.sum == total(self.readings)
                &&& average.elapsed_millis == self.readings.last().0 - self.readings[0].0
            },
            None => self.readings.len() < 2,
        }
    }
}

impl View for MovingAverage {
    type V = MovingAverageView;

    closed spec fn view(&self) -> MovingAverageView {
        MovingAverageView { window_millis: self.window_millis, readings: self.values@ }
    }
}

proof fn lemma_total_first(readings: Seq<(u64, u64)>)
    requires
        readings.len() > 0,
    ensures
        total(readings) == readings[0].1 + total(readings.drop_first()),
    decreases readings.len(),
{
    if readings.len() == 1 {
        assert(readings.drop_first() =~= readings.drop_last());
    } else {
        lemma_total_first(readings.drop_last());
        assert(readings.drop_first().drop_last() =~= readings.drop_last().drop_first());
        assert(readings.drop_first().last() == readings.last());
    }
}

proof fn lemma_total_nonnegative(readings: Seq<(u64, u64)>)
    ensures
        0 <= total(readings),
    decreases readings.len(),
{
    if readings.len() > 0 {
        lemma_total_nonnegative(readings.drop_last());
    }
}

/// Dropping stale readings stops at a reading of the present at the latest.
proof fn lemma_without_stale_keeps_last(window: u64, now: u64, readings: Seq<(u64, u64)>)
    requires
        readings.len() > 0,
        readings.last().0 == now,
    ensures
        without_stale(window, now, readings).len() > 0,
        without_stale(window, now, readings).last() == readings.last(),
        now - without_stale(window, now, readings)[0].0 <= window,
        total(without_stale(window, now, readings)) <= total(readings),
    decreases readings.len(),
{
    if now - readings[0].0 > window {
        lemma_total_first(readings);
        lemma_without_stale_keeps_last(window, now, readings.drop_first());
    }
}

impl MovingAverage {
    /// The sum that is kept is that of the readings, and the first reading is not younger than
    /// the last.
    pub closed spec fn well_formed(&self) -> bool {
        &&& self.sum == total(self.values@)
        &&& self.values@.len() > 0 ==> self.values@[0].0 <= self.values@.last().0
    }

    /// An average over a window, with no readings yet.
    pub fn new(window_millis: u64) -> (average: Self)
        ensures
            average.well_formed(),
            average@ == (MovingAverageView { window_millis, readings: Seq::empty() }),
    {
        MovingAverage { window_millis, values: VecDeque::new(), sum: 0 }
    }

    /// Takes a reading at the present time. Whether it was taken: where the clock does not allow
    /// it, or the sum would overflow, nothing changes.
    pub fn tick_now(&mut self, value: u64) -> (ticked: bool)
        requires
            old(self).well_formed(),
        ensures
            final(self).well_formed(),
            exists|now: u64|
                {
                    &&& ticked == #[trigger] old(self)@.accepts(now, value)
                    &&& final(self)@ == if ticked {
                        old(self)@.tick(now, value)
                    } else {
                        old(self)@
                    }
                },
    {
        let now = now_millis();
        self.try_tick(now, value).is_some()
    }

    /// Takes a reading, if it can be taken, and gives the average after it. Where the reading
    /// cannot be taken nothing changes.
    pub fn try_tick(&mut self, timestamp_millis: u64, value: u64) -> (result: Option<
        Option<Average>,
    >)
        requires
            old(self).well_formed(),
        ensures
            final(self).well_formed(),
            match result {
                Some(average) => {
                    &&& old(self)@.accepts(timestamp_millis, value)
                    &&& final(self)@ == old(self)@.tick(timestamp_millis, value)
                    &&& final(self)@.averages_to(average)
                },
                None => {
                    &&& !old(self)@.accepts(timestamp_millis, value)
                    &&& final(self)@ == old(self)@
                },
            },
    {
        if self.can_tick(timestamp_millis, value) {
            Some(self.tick(timestamp_millis, value))
        } else {
            None
        }
    }

    /// Whether a reading can be taken.
    pub fn can_tick(&self, timestamp_millis: u64, value: u64) -> (ok: bool)
        requires
            self.well_formed(),
        ensures
            ok == self@.accepts(timestamp_millis, value),
    {
        if value > u64::MAX - self.sum {
            return false;
        }
        let ghost all = self.values@.push((timestamp_millis, value));
        let mut i: usize = 0;
        assert(all.skip(0) =~= all);
        while i < self.values.len()
            invariant
                all == self.values@.push((timestamp_millis, value)),
                i <= self.values@.len(),
                self@.tick(timestamp_millis, value).readings == without_stale(
                    self.window_millis,
                    timestamp_millis,
                    all.skip(i as int),
                ),
                self.sum == total(self.values@),
                self.sum + value <= u64::MAX,
            decreases self.values.len() - i,
        {
            let ts = self.values[i].0;
            assert(all.skip(i as int)[0] == self.values@[i as int]);
            if timestamp_millis < ts {
                return false;
            }
            if timestamp_millis - ts <= self.window_millis {
                return true;
            }
            assert(all.skip(i as int).drop_first() =~= all.skip(i + 1));
            i += 1;
        }
        assert(all.skip(i as int)[0] == (timestamp_millis, value));
        true
    }

    /// Takes a reading, drops those that are from before the window, and gives the average.
    pub fn tick(&mut self, timestamp_millis: u64, value: u64) -> (average: Option<Average>)
        requires
            old(self).well_formed(),
            old(self)@.accepts(timestamp_millis, value),
        ensures
            final(self).well_formed(),
            final(self)@ == old(self)@.tick(timestamp_millis, value),
            final(self)@.averages_to(average),
    {
        let ghost after = self@.tick(timestamp_millis, value);
        let ghost all = self.values@.push((timestamp_millis, value));
        self.values.push_back((timestamp_millis, value));
        assert(all.drop_last() =~= old(self).values@);
        self.sum += value;
        proof {
            lemma_without_stale_keeps_last(self.window_millis, timestamp_millis, all);
        }
        loop
            invariant_except_break
                self.values@.len() > 0,
                self.values@.last().0 == timestamp_millis,
                self.sum == total(self.values@),
                after.readings == without_stale(
                    self.window_millis,
                    timestamp_millis,
                    self.values@,
                ),
            invariant
                after.readings[0].0 <= timestamp_millis,
                self.window_millis == old(self).window_millis,
            ensures
                self.values@.len() > 0,
                self.values@.last().0 == timestamp_millis,
                self.sum == total(self.values@),
                after.readings == self.values@,
            decreases self.values@.len(),
        {
            let (ts, val) = self.values[0];
            proof {
                lemma_total_first(self.values@);
                lemma_total_nonnegative(self.values@.drop_first());
                if timestamp_millis < ts {
                    assert(after.readings == self.values@);
                }
            }
            if timestamp_millis - ts > self.window_millis {
                assert(self.values@.len() > 1);
                self.sum -= val;
                let ghost rest = self.values@.drop_first();
                let _ = self.values.pop_front();
                assert(self.values@ =~= rest);
            } else {
                break;
            }
        }
        self.avg()
    }

    /// The average over the readings in the window.
    pub fn avg(&self) -> (average: Option<Average>)
        requires
            self.well_formed(),
        ensures
            self@.averages_to(average),
    {
        if self.values.len() < 2 {
            None
        } else {
            let elapsed = self.values[self.values.len() - 1].0 - self.values[0].0;
            Some(Average { sum: self.sum, elapsed_millis: elapsed })
        }
    }
}

/// The last reading is always kept, and the average is over no more time than the window.
pub proof fn law_average_is_over_window(
    before: MovingAverageView,
    timestamp_millis: u64,
    value: u64,
    average: Option<Average>,
)
    requires
        before.tick(timestamp_millis, value).averages_to(average),
    ensures
        before.tick(timestamp_millis, value).readings.len() > 0,
        before.tick(timestamp_millis, value).readings.last() == (timestamp_millis, value),
        average matches Some(average) ==> average.elapsed_millis <= before.window_millis,
{
    lemma_without_stale_keeps_last(
        before.window_millis,
        timestamp_millis,
        before.readings.push((timestamp_millis, value)),
    );
}

/// The timestamps do not go down.
pub open spec fn is_chronological(readings: Seq<(u64, u64)>) -> bool {
    forall|i: int, j: int| 0 <= i <= j < readings.len() ==> readings[i].0 <= readings[j].0
}

/// As long as the clock does not run backwards, only an overflow of the sum stops a reading from
/// being taken, and the readings stay in the order of time.
pub proof fn law_steady_clock_is_accepted(
    before: MovingAverageView,
    timestamp_millis: u64,
    value: u64,
)
    requires
        is_chronological(before.readings.push((timestamp_millis, value))),
    ensures
        before.accepts(timestamp_millis, value) <==> total(before.readings) + value <= u64::MAX,
        is_chronological(before.tick(timestamp_millis, value).readings),
{
    let all = before.readings.push((timestamp_millis, value));
    lemma_without_stale_keeps_last(before.window_millis, timestamp_millis, all);
    lemma_without_stale_chronological(before.window_millis, timestamp_millis, all);
    assert(all.last() == (timestamp_millis, value));
    let kept = before.tick(timestamp_millis, value).readings;
    assert(kept[0].0 <= kept.last().0);
}

proof fn lemma_without_stale_chronological(window: u64, now: u64, readings: Seq<(u64, u64)>)
    requires
        is_chronological(readings),
    ensures
        is_chronological(without_stale(window, now, readings)),
    decreases readings.len(),
{
    if readings.len() > 0 && now - readings[0].0 > window {
        lemma_without_stale_chronological(window, now, readings.drop_first());
    }
}

/// The readings of the window that ends at `now`.
pub open spec fn in_window(window: u64, now: u64, readings: Seq<(u64, u64)>) -> Seq<(u64, u64)> {
    readings.filter(|reading: (u64, u64)| now - reading.0 <= window)
}

/// The state after a series of readings, starting from none.
pub open spec fn after_all(window_millis: u64, readings: Seq<(u64, u64)>) -> MovingAverageView
    decreases readings.len(),
{
    if readings.len() == 0 {
        MovingAverageView { window_millis, readings }
    } else {
        after_all(window_millis, readings.drop_last()).tick(readings.last().0, readings.last().1)
    }
}

proof fn lemma_in_window_first(window: u64, now: u64, readings: Seq<(u64, u64)>)
    requires
        readings.len() > 0,
    ensures
        in_window(window, now, readings) == if now - readings[0].0 <= window {
            seq![readings[0]] + in_window(window, now, readings.drop_first())
        } else {
            in_window(window, now, readings.drop_first())
        },
{
    let pred = |reading: (u64, u64)| now - reading.0 <= window;
    let front = seq![readings[0]];
    Seq::filter_distributes_over_add(front, readings.drop_first(), pred);
    assert(front + readings.drop_first() =~= readings);
    reveal(Seq::filter);
    assert(front.drop_last() =~= Seq::<(u64, u64)>::empty());
    assert(front.drop_last().filter(pred) =~= Seq::<(u64, u64)>::empty());
    assert(front.last() == readings[0]);
    assert(front.filter(pred) =~= if pred(readings[0]) {
        front
    } else {
        Seq::empty()
    });
    assert(in_window(window, now, readings) =~= if now - readings[0].0 <= window {
        front + in_window(window, now, readings.drop_first())
    } else {
        in_window(window, now, readings.drop_first())
    });
}

proof fn lemma_all_in_window(window: u64, now: u64, readings: Seq<(u64, u64)>)
    requires
        is_chronological(readings),
        readings.len() > 0 ==> now - readings[0].0 <= window,
    ensures
        in_window(window, now, readings) == readings,
    decreases readings.len(),
{
    if readings.len() == 0 {
        reveal(Seq::filter);
    } else {
        lemma_in_window_first(window, now, readings);
        lemma_all_in_window(window, now, readings.drop_first());
        assert(seq![readings[0]] + readings.drop_first() =~= readings);
    }
}

/// Over readings in the order of time, dropping from the front what is stale leaves what is in
/// the window.
proof fn lemma_without_stale_is_window(window: u64, now: u64, readings: Seq<(u64, u64)>)
    requires
        is_chronological(readings),
    ensures
        without_stale(window, now, readings) == in_window(window, now, readings),
    decreases readings.len(),
{
    if readings.len() > 0 && now - readings[0].0 > window {
        lemma_in_window_first(window, now, readings);
        lemma_without_stale_is_window(window, now, readings.drop_first());
    } else {
        lemma_all_in_window(window, now, readings);
    }
}

/// What has left a window has left every later one.
proof fn lemma_window_narrows(window: u64, earlier: u64, now: u64, readings: Seq<(u64, u64)>)
    requires
        earlier <= now,
    ensures
        in_window(window, now, in_window(window, earlier, readings)) == in_window(
            window,
            now,
            readings,
        ),
    decreases readings.len(),
{
    if readings.len() == 0 {
        reveal(Seq::filter);
    } else {
        let rest = in_window(window, earlier, readings.drop_first());
        lemma_in_window_first(window, earlier, readings);
        lemma_in_window_first(window, now, readings);
        lemma_window_narrows(window, earlier, now, readings.drop_first());
        if earlier - readings[0].0 <= window {
            let kept = seq![readings[0]] + rest;
            lemma_in_window_first(window, now, kept);
            assert(kept.drop_first() =~= rest);
        }
    }
}

/// As long as the clock does not run backwards, what is averaged over is exactly the readings
/// that were taken no longer than the window before the last one.
pub proof fn law_window_holds_recent_readings(window_millis: u64, readings: Seq<(u64, u64)>)
    requires
        is_chronological(readings),
        readings.len() > 0,
    ensures
        after_all(window_millis, readings).readings == in_window(
            window_millis,
            readings.last().0,
            readings,
        ),
    decreases readings.len(),
{
    let earlier = readings.drop_last();
    let last = readings.last();
    let before = after_all(window_millis, earlier);
    if earlier.len() == 0 {
        assert(before.readings.push(last) =~= readings);
        lemma_after_all_window(window_millis, earlier);
        lemma_without_stale_is_window(window_millis, last.0, readings);
    } else {
        lemma_after_all_window(window_millis, earlier);
        law_window_holds_recent_readings(window_millis, earlier);
        lemma_window_narrows(window_millis, earlier.last().0, last.0, earlier);
        assert(is_chronological(before.readings.push(last))) by {
            lemma_in_window_chronological(window_millis, earlier.last().0, earlier, last);
        }
        lemma_without_stale_is_window(window_millis, last.0, before.readings.push(last));
        lemma_in_window_last(window_millis, last.0, before.readings, last);
        lemma_in_window_last(window_millis, last.0, earlier, last);
        assert(earlier.push(last) =~= readings);
    }
}

proof fn lemma_after_all_window(window_millis: u64, readings: Seq<(u64, u64)>)
    ensures
        after_all(window_millis, readings).window_millis == window_millis,
    decreases readings.len(),
{
    if readings.len() > 0 {
        lemma_after_all_window(window_millis, readings.drop_last());
    }
}

proof fn lemma_in_window_last(
    window: u64,
    now: u64,
    readings: Seq<(u64, u64)>,
    last: (u64, u64),
)
    ensures
        in_window(window, now, readings.push(last)) == if now - last.0 <= window {
            in_window(window, now, readings).push(last)
        } else {
            in_window(window, now, readings)
        },
{
    reveal(Seq::filter);
    assert(readings.push(last).drop_last() =~= readings);
}

/// The readings in a window are in the order of time, and so they are with a later one behind.
proof fn lemma_in_window_chronological(
    window: u64,
    now: u64,
    readings: Seq<(u64, u64)>,
    last: (u64, u64),
)
    requires
        is_chronological(readings.push(last)),
    ensures
        is_chronological(in_window(window, now, readings).push(last)),
    decreases readings.len(),
{
    let all = readings.push(last);
    if readings.len() == 0 {
        reveal(Seq::filter);
    } else {
        let front = readings.drop_last();
        let y = readings.last();
        assert(readings =~= front.push(y));
        lemma_in_window_last(window, now, front, y);
        assert(is_chronological(front.push(y))) by {
            assert forall|i: int, j: int| 0 <= i <= j < readings.len() implies readings[i].0
                <= readings[j].0 by {
                assert(all[i].0 <= all[j].0);
            }
        }
        assert(is_chronological(front.push(last))) by {
            assert forall|i: int, j: int| 0 <= i <= j < readings.len() implies front.push(
                last,
            )[i].0 <= front.push(last)[j].0 by {
                assert(front.push(last)[i] == if i < front.len() {
                    all[i]
                } else {
                    all[readings.len() as int]
                });
                assert(front.push(last)[j] == if j < front.len() {
                    all[j]
                } else {
                    all[readings.len() as int]
                });
            }
        }
        lemma_in_window_chronological(window, now, front, y);
        lemma_in_window_chronological(window, now, front, last);
        assert(y.0 <= last.0) by {
            assert(all[readings.len() - 1] == y && all[readings.len() as int] == last);
        }
        let kept = in_window(window, now, front);
        let with_y = kept.push(y);
        let with_last = kept.push(last);
        if now - y.0 <= window {
            let both = with_y.push(last);
            assert forall|i: int, j: int| 0 <= i <= j < both.len() implies both[i].0
                <= both[j].0 by {
                if j < with_y.len() {
                    assert(with_y[i].0 <= with_y[j].0);
                } else if i < kept.len() {
                    assert(with_last[i].0 <= with_last[kept.len() as int].0);
                }
            }
        }
    }
}

proof fn lemma_total_is_fold(
    readings: Seq<(u64, u64)>,
    plus: spec_fn(int, (u64, u64)) -> int,
)
    requires
        forall|sum: int, reading: (u64, u64)| #[trigger] plus(sum, reading) == sum + reading.1,
    ensures
        readings.fold_left(0, plus) == total(readings),
    decreases readings.len(),
{
    reveal_with_fuel(Seq::fold_left, 2);
    if readings.len() > 0 {
        lemma_total_is_fold(readings.drop_last(), plus);
    }
}

/// What a new reading does: it goes behind the others, and from the front go just those readings,
/// up to the first that is not, that are from longer than the window ago. The result is how many
/// go. The reading can be taken just where the sum of all values does not overflow and the first
/// reading that stays is not from the future.
pub proof fn law_tick_drops_what_left_the_window(
    before: MovingAverageView,
    timestamp_millis: u64,
    value: u64,
) -> (gone: int)
    ensures
        ({
            let all = before.readings.push((timestamp_millis, value));
            let after = before.tick(timestamp_millis, value);
            &&& 0 <= gone < all.len()
            &&& after.window_millis == before.window_millis
            &&& after.readings.len() == all.len() - gone
            &&& forall|i: int|
                0 <= i < after.readings.len() ==> #[trigger] after.readings[i] == all[gone + i]
            &&& forall|i: int|
                0 <= i < gone ==> timestamp_millis - (#[trigger] all[i]).0 > before.window_millis
            &&& timestamp_millis - all[gone].0 <= before.window_millis
        }),
        before.accepts(timestamp_millis, value) <==> {
            &&& before.readings.fold_left(0, |sum: int, reading: (u64, u64)| sum + reading.1)
                + value <= u64::MAX
            &&& before.readings.push((timestamp_millis, value))[gone].0 <= timestamp_millis
        },
{
    let all = before.readings.push((timestamp_millis, value));
    lemma_total_is_fold(before.readings, |sum: int, reading: (u64, u64)| sum + reading.1);
    lemma_without_stale_keeps_last(before.window_millis, timestamp_millis, all);
    lemma_without_stale_is_rest(before.window_millis, timestamp_millis, all)
}

proof fn lemma_without_stale_is_rest(window: u64, now: u64, readings: Seq<(u64, u64)>) -> (gone:
    int)
    requires
        readings.len() > 0,
        readings.last().0 == now,
    ensures
        0 <= gone < readings.len(),
        without_stale(window, now, readings) == readings.skip(gone),
        forall|i: int| 0 <= i < gone ==> now - (#[trigger] readings[i]).0 > window,
        now - readings[gone].0 <= window,
    decreases readings.len(),
{
    if now - readings[0].0 > window {
        let rest = readings.drop_first();
        let gone = lemma_without_stale_is_rest(window, now, rest);
        assert(rest.skip(gone) =~= readings.skip(gone + 1));
        assert forall|i: int| 0 <= i < gone + 1 implies now - (#[trigger] readings[i]).0
            > window by {
            if i > 0 {
                assert(rest[i - 1] == readings[i]);
            }
        }
        gone + 1
    } else {
        assert(readings.skip(0) =~= readings);
        0
    }
}

/// The average is the sum of the values of all readings in the window over the time from the first
/// to the last of them. There is one just where there are two readings or more.
pub proof fn law_average_is_of_all_readings(state: MovingAverageView, average: Option<Average>)
    requires
        state.averages_to(average),
    ensures
        average is Some <==> state.readings.len() >= 2,
        average matches Some(average) ==> {
            &&& average.sum == state.readings.fold_left(
                0,
                |sum: int, reading: (u64, u64)| sum + reading.1,
            )
            &&& average.elapsed_millis == state.readings[state.readings.len() - 1].0
                - state.readings[0].0
        },
{
    lemma_total_is_fold(state.readings, |sum: int, reading: (u64, u64)| sum + reading.1);
}

/// As long as the clock does not run backwards, a new reading leaves just the readings, the new
/// one among them, that are from no longer than the window ago.
pub proof fn law_tick_leaves_the_window(
    before: MovingAverageView,
    timestamp_millis: u64,
    value: u64,
)
    requires
        forall|i: int, j: int|
            0 <= i <= j < before.readings.len() ==> (#[trigger] before.readings[i]).0 <= (
            #[trigger] before.readings[j]).0,
        before.readings.len() > 0 ==> before.readings.last().0 <= timestamp_millis,
    ensures
        before.tick(timestamp_millis, value).readings == before.readings.push(
            (timestamp_millis, value),
        ).filter(
            |reading: (u64, u64)| timestamp_millis - reading.0 <= before.window_millis,
        ),
{
    let all = before.readings.push((timestamp_millis, value));
    assert(is_chronological(all)) by {
        assert forall|i: int, j: int| 0 <= i <= j < all.len() implies all[i].0 <= all[j].0 by {
            if j < before.readings.len() {
                assert(before.readings[i].0 <= before.readings[j].0);
            } else if i < j {
                assert(before.readings[i].0 <= before.readings[before.readings.len() - 1].0);
            }
        }
    }
    lemma_without_stale_is_window(before.window_millis, timestamp_millis, all);
    lemma_in_window_is_filter(
        before.window_millis,
        timestamp_millis,
        all,
        |reading: (u64, u64)| timestamp_millis - reading.0 <= before.window_millis,
    );
}

proof fn lemma_in_window_is_filter(
    window: u64,
    now: u64,
    readings: Seq<(u64, u64)>,
    pick: spec_fn((u64, u64)) -> bool,
)
    requires
        forall|reading: (u64, u64)| #[trigger] pick(reading) == (now - reading.0 <= window),
    ensures
        in_window(window, now, readings) == readings.filter(pick),
    decreases readings.len(),
{
    reveal(Seq::filter);
    if readings.len() > 0 {
        lemma_in_window_is_filter(window, now, readings.drop_last(), pick);
    }
}

} // verus!
