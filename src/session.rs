use vstd::prelude::*;
use crate::codec::{ColumnFrame, DataPoint, EncodeError, FrameModel, SampleModel, encode_model, names_model};
use crate::value::CursedValue;

verus! {

/// A frame ready for the wire: the plain form of a sample, or its columnar form.
#[derive(Clone, Debug, PartialEq)]
pub enum Outgoing {
    Plain(DataPoint),
    Columnar(ColumnFrame),
}

/// Milliseconds in a second: the send interval at a rate of one hertz.
pub const MS_PER_SECOND: u64 = 1000;

/// The decisions of one streaming connection: when the ticker fires, which
/// time a frame carries, how long to sleep, and how each sample is encoded.
#[derive(Clone, Debug, PartialEq)]
pub struct StreamingSession {
    pub send_interval_ms: u64,
    pub last_send_time: u64,
    pub use_binary_encoding: bool,
    pub topic: String,
    pub record_schema: Vec<String>,
}

/// A tick is due: at least one interval has passed since the last send.
pub open spec fn is_due(last: u64, elapsed: u64, interval: u64) -> bool {
    elapsed >= last && elapsed - last >= interval
}

/// What a session sends for a sample: the columnar frame when binary encoding
/// is on and the sample has one; otherwise the plain sample.
pub open spec fn sends_as(o: Outgoing, binary: bool, d: SampleModel, schema: Seq<Seq<char>>) -> bool {
    if binary && encode_model(d, schema) is Ok {
        o matches Outgoing::Columnar(f) && encode_model(d, schema) == Ok::<FrameModel, EncodeError>(f@)
    } else {
        o matches Outgoing::Plain(p) && p@ == d
    }
}

impl StreamingSession {
    /// The interval is positive, so that successive frames carry strictly
    /// increasing times.
    pub open spec fn wf(&self) -> bool {
        self.send_interval_ms > 0
    }

    /// The send interval for a rate in hertz, `1000 / rate_hz` milliseconds;
    /// none for a rate of zero or above one frame per millisecond.
    pub fn interval_for_rate(rate_hz: u64) -> (r: Option<u64>)
        ensures
            rate_hz == 0 || rate_hz > MS_PER_SECOND ==> r is None,
            0 < rate_hz <= MS_PER_SECOND ==> r == Some((MS_PER_SECOND / rate_hz) as u64),
            r matches Some(i) ==> i > 0,
    {
        if rate_hz == 0 || rate_hz > MS_PER_SECOND {
            None
        } else {
            assert(MS_PER_SECOND / rate_hz >= 1) by (nonlinear_arith)
                requires
                    0 < rate_hz <= MS_PER_SECOND,
            ;
            Some(MS_PER_SECOND / rate_hz)
        }
    }

    /// A session that has not sent yet, sending every `send_interval_ms`. The
    /// interval must be at least one millisecond: at zero the ticker would fire
    /// on every pass and stamp several frames with the same time.
    pub fn new(send_interval_ms: u64, use_binary_encoding: bool, topic: String, record_schema: Vec<String>) -> (r:
        StreamingSession)
        requires
            send_interval_ms > 0,
        ensures
            r.wf(),
            r.send_interval_ms == send_interval_ms,
            r.last_send_time == 0,
            r.use_binary_encoding == use_binary_encoding,
            r.topic@ == topic@,
            r.record_schema@ == record_schema@,
    {
        StreamingSession { send_interval_ms, last_send_time: 0, use_binary_encoding, topic, record_schema }
    }

    /// Checks the ticker at `elapsed_ms` since the session began. When a tick
    /// is due it fires: the last send time moves to `elapsed_ms`, which is
    /// returned as the frame's time. Each fired time lies at least one interval
    /// after the one before.
    pub fn poll(&mut self, elapsed_ms: u64) -> (r: Option<u64>)
        requires
            old(self).wf(),
        ensures
            final(self).wf(),
            final(self).send_interval_ms == old(self).send_interval_ms,
            final(self).use_binary_encoding == old(self).use_binary_encoding,
            final(self).topic == old(self).topic,
            final(self).record_schema == old(self).record_schema,
            is_due(old(self).last_send_time, elapsed_ms, old(self).send_interval_ms) ==> {
                &&& r == Some(elapsed_ms)
                &&& final(self).last_send_time == elapsed_ms
                &&& elapsed_ms >= old(self).last_send_time + old(self).send_interval_ms
            },
            !is_due(old(self).last_send_time, elapsed_ms, old(self).send_interval_ms) ==> {
                &&& r is None
                &&& final(self).last_send_time == old(self).last_send_time
            },
    {
        let interval = self.send_interval_ms;
        let last = self.last_send_time;
        if elapsed_ms >= last && elapsed_ms - last >= interval {
            self.last_send_time = elapsed_ms;
            Some(elapsed_ms)
        } else {
            None
        }
    }

    /// How long the ticker sleeps after a loop body that took `loop_body_ms`:
    /// the rest of the interval, or nothing once the body took longer.
    pub fn sleep_ms(&self, loop_body_ms: u64) -> (r: u64)
        ensures
            loop_body_ms < self.send_interval_ms ==> r == self.send_interval_ms - loop_body_ms,
            loop_body_ms >= self.send_interval_ms ==> r == 0,
    {
        if loop_body_ms < self.send_interval_ms {
            self.send_interval_ms - loop_body_ms
        } else {
            0
        }
    }

    /// The frame for `value` at `time` on this session's topic. With binary
    /// encoding on, the columnar frame; where the sample has none (a record of
    /// another shape), the plain sample for this tick instead, with the same
    /// topic, time and value.
    pub fn encode(&self, time: u64, value: CursedValue) -> (r: Outgoing)
        ensures
            sends_as(r, self.use_binary_encoding, (self.topic@, time, value@), names_model(self.record_schema@)),
    {
        let point = DataPoint::new(self.topic.clone(), time, value);
        if self.use_binary_encoding {
            match point.to_record_batch(&self.record_schema) {
                Ok(f) => Outgoing::Columnar(f),
                Err(_) => Outgoing::Plain(point),
            }
        } else {
            Outgoing::Plain(point)
        }
    }
}

/// The times of the frames that polls at the elapsed times `es`, in order, fire
/// for a session whose last send was at `last`.
pub open spec fn fired_times(last: u64, es: Seq<u64>, interval: u64) -> Seq<u64>
    decreases es.len(),
{
    if es.len() == 0 {
        Seq::empty()
    } else if is_due(last, es[0], interval) {
        seq![es[0]] + fired_times(es[0], es.drop_first(), interval)
    } else {
        fired_times(last, es.drop_first(), interval)
    }
}

proof fn lemma_fired_after(last: u64, es: Seq<u64>, interval: u64, w: u64)
    requires
        interval > 0,
        forall|i: int| 0 <= i < es.len() ==> #[trigger] es[i] <= w,
    ensures
        forall|i: int| 0 <= i < fired_times(last, es, interval).len() ==> #[trigger] fired_times(last, es, interval)[i]
            >= last + interval,
        forall|i: int, j: int|
            0 <= i < j < fired_times(last, es, interval).len() ==> #[trigger] fired_times(last, es, interval)[i]
                < #[trigger] fired_times(last, es, interval)[j],
        fired_times(last, es, interval).len() > 0 ==> last + fired_times(last, es, interval).len() * interval <= w,
    decreases es.len(),
{
    if es.len() > 0 {
        let rest = es.drop_first();
        assert forall|i: int| 0 <= i < rest.len() implies #[trigger] rest[i] <= w by {
            assert(rest[i] == es[i + 1]);
        }
        if is_due(last, es[0], interval) {
            let e = es[0];
            let t = e;
            lemma_fired_after(t, rest, interval, w);
            let tail = fired_times(t, rest, interval);
            let all = fired_times(last, es, interval);
            assert(all == seq![t] + tail);
            assert forall|i: int| 0 <= i < all.len() implies #[trigger] all[i] >= last + interval by {
                if i > 0 {
                    assert(all[i] == tail[i - 1]);
                }
            }
            assert forall|i: int, j: int| 0 <= i < j < all.len() implies #[trigger] all[i] < #[trigger] all[j] by {
                assert(all[j] == tail[j - 1]);
                if i > 0 {
                    assert(all[i] == tail[i - 1]);
                }
            }
            let n = tail.len();
            assert(all.len() == n + 1);
            if n > 0 {
                assert(last + (n + 1) * interval <= t + n * interval) by (nonlinear_arith)
                    requires
                        t >= last + interval,
                ;
                assert(last + all.len() * interval <= w);
            } else {
                assert(e <= w);
                assert(all.len() * interval == interval) by (nonlinear_arith)
                    requires
                        all.len() == 1,
                ;
                assert(last + all.len() * interval <= w);
            }
        } else {
            lemma_fired_after(last, rest, interval, w);
        }
    }
}

/// A session's frames carry strictly increasing times, whatever elapsed times
/// its ticker polls at; and however often it polls, a window of `w`
/// milliseconds from the session's start holds at most `w / interval` frames.
pub proof fn lemma_frames_in_window(es: Seq<u64>, interval: u64, w: u64)
    requires
        interval > 0,
        forall|i: int| 0 <= i < es.len() ==> #[trigger] es[i] <= w,
    ensures
        forall|i: int, j: int|
            0 <= i < j < fired_times(0, es, interval).len() ==> #[trigger] fired_times(0, es, interval)[i]
                < #[trigger] fired_times(0, es, interval)[j],
        fired_times(0, es, interval).len() <= w / interval,
{
    lemma_fired_after(0, es, interval, w);
    let n = fired_times(0, es, interval).len();
    if n > 0 {
        assert(n <= w / interval) by (nonlinear_arith)
            requires
                n * interval <= w,
                interval > 0,
        ;
    }
}

/// Successive polls lie in order, at most `g` milliseconds apart.
pub open spec fn polls_every(es: Seq<u64>, g: u64) -> bool {
    forall|i: int| 0 <= i < es.len() - 1 ==> #[trigger] es[i] <= es[i + 1] && es[i + 1] <= es[i] + g
}

proof fn lemma_fired_before(last: u64, es: Seq<u64>, interval: u64, g: u64)
    requires
        interval > 0,
        g > 0,
        es.len() > 0,
        es[0] < last + interval + g,
        polls_every(es, g),
    ensures
        es.last() < last + fired_times(last, es, interval).len() * (interval + g - 1) + interval,
    decreases es.len(),
{
    let e = es[0];
    let n = fired_times(last, es, interval).len();
    if es.len() == 1 {
        assert(es.drop_first().len() == 0);
        assert(fired_times(e, es.drop_first(), interval).len() == 0);
        assert(fired_times(last, es.drop_first(), interval).len() == 0);
        if is_due(last, e, interval) {
            assert(fired_times(last, es, interval) == seq![e] + fired_times(e, es.drop_first(), interval));
            assert(n == 1);
            assert(n * (interval + g - 1) == interval + g - 1) by (nonlinear_arith)
                requires
                    n == 1,
            ;
        } else {
            assert(n == 0);
            assert(n * (interval + g - 1) == 0) by (nonlinear_arith)
                requires
                    n == 0,
            ;
        }
    } else {
        let rest = es.drop_first();
        assert(rest.last() == es.last());
        assert(polls_every(rest, g)) by {
            assert forall|i: int| 0 <= i < rest.len() - 1 implies #[trigger] rest[i] <= rest[i + 1] && rest[i + 1]
                <= rest[i] + g by {
                assert(rest[i] == es[i + 1] && rest[i + 1] == es[i + 2]);
            }
        }
        assert(es[0] <= es[1] && es[1] <= es[0] + g);
        assert(rest[0] == es[1]);
        if is_due(last, e, interval) {
            lemma_fired_before(e, rest, interval, g);
            let m = fired_times(e, rest, interval).len();
            assert(n == m + 1);
            assert(last + n * (interval + g - 1) == last + m * (interval + g - 1) + (interval + g - 1)) by (nonlinear_arith)
                requires
                    n == m + 1,
            ;
        } else {
            lemma_fired_before(last, rest, interval, g);
        }
    }
}

/// However its polls are scheduled, a session polled from its start at gaps of
/// at most `g` milliseconds sends a frame at least every `interval + g - 1`
/// milliseconds: by the last poll, at `es.last()`, it has sent `n` frames with
/// `es.last() < n * (interval + g - 1) + interval`. Together with the upper
/// bound of `lemma_frames_in_window`, this fixes how many frames a window holds.
pub proof fn lemma_frames_at_least(es: Seq<u64>, interval: u64, g: u64)
    requires
        interval > 0,
        g > 0,
        es.len() > 0,
        es[0] < interval + g,
        polls_every(es, g),
    ensures
        es.last() < fired_times(0, es, interval).len() * (interval + g - 1) + interval,
{
    lemma_fired_before(0, es, interval, g);
}

} // verus!
