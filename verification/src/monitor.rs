//! Resource history of running applications: one sample per refresh, kept
//! for an hour, and the I/O counters from which transfer rates are derived.
use vstd::prelude::*;
use crate::keyed::KeyedVec;

verus! {

/// One resource sample.  CPU usage and transfer rates are in hundredths
/// (the values shown are rounded to two decimals).
#[derive(Clone, Copy, Debug)]
pub struct MetricSample {
    pub ts: i64,
    pub cpu_hundredths: u64,
    pub mem: u64,
    pub net_in_hundredths: u64,
    pub net_out_hundredths: u64,
}

/// How long samples are kept, in seconds.
pub const HISTORY_SECS: i64 = 3600;

/// `h` without its leading samples older than `bound`.
pub open spec fn drop_older(h: Seq<MetricSample>, bound: i64) -> Seq<MetricSample>
    decreases h.len(),
{
    if h.len() > 0 && h[0].ts < bound {
        drop_older(h.drop_first(), bound)
    } else {
        h
    }
}

/// The transfer since the last reading: bytes read and written since then
/// (0 if a counter went down) and the seconds elapsed (at least 1).
pub open spec fn io_delta(prev: (i64, u64, u64), ts: i64, read: u64, written: u64) -> (u64, u64, i64) {
    (
        if read >= prev.1 {
            (read - prev.1) as u64
        } else {
            0
        },
        if written >= prev.2 {
            (written - prev.2) as u64
        } else {
            0
        },
        if ts - prev.0 > 1 {
            (ts - prev.0) as i64
        } else {
            1
        },
    )
}

/// Each amount of a transfer comes from its own counter alone: the bytes
/// written are how far the written counter grew since the previous reading
/// (0 if it went down), whatever the read counters were, and the same for
/// the bytes read; the time is the seconds elapsed, at least 1.
pub proof fn law_io_delta_per_counter(
    prev: (i64, u64, u64),
    ts: i64,
    read: u64,
    written: u64,
    other_prev_read: u64,
    other_read: u64,
    other_prev_written: u64,
    other_written: u64,
)
    requires
        i64::MIN <= ts - prev.0 <= i64::MAX,
    ensures
        ({
            let d = io_delta(prev, ts, read, written);
            &&& written >= prev.2 ==> prev.2 + d.1 == written
            &&& written < prev.2 ==> d.1 == 0
            &&& read >= prev.1 ==> prev.1 + d.0 == read
            &&& read < prev.1 ==> d.0 == 0
            &&& ts - prev.0 >= 1 ==> d.2 == ts - prev.0
            &&& ts - prev.0 < 1 ==> d.2 == 1
        }),
        io_delta(prev, ts, read, written).1 == io_delta(
            (prev.0, other_prev_read, prev.2),
            ts,
            other_read,
            written,
        ).1,
        io_delta(prev, ts, read, written).0 == io_delta(
            (prev.0, prev.1, other_prev_written),
            ts,
            read,
            other_written,
        ).0,
{
}

/// The monitoring switch and data.
pub struct Monitor {
    enabled: bool,
    history: KeyedVec<Vec<MetricSample>>,
    counters: KeyedVec<(i64, u64, u64)>,
}

impl Monitor {
    pub closed spec fn enabled(&self) -> bool {
        self.enabled
    }

    /// Samples by application id, oldest first.
    pub closed spec fn history(&self) -> Map<Seq<char>, Seq<MetricSample>> {
        Map::new(|k: Seq<char>| self.history@.dom().contains(k), |k: Seq<char>| self.history@[k]@)
    }

    /// Last I/O reading (time, bytes read, bytes written) by application id.
    pub closed spec fn counters(&self) -> Map<Seq<char>, (i64, u64, u64)> {
        self.counters@
    }

    pub closed spec fn wf(&self) -> bool {
        self.history.wf() && self.counters.wf()
    }

    /// Monitoring on, nothing recorded.
    pub fn new() -> (m: Self)
        ensures
            m.wf(),
            m.enabled(),
            m.history() == Map::<Seq<char>, Seq<MetricSample>>::empty(),
            m.counters() == Map::<Seq<char>, (i64, u64, u64)>::empty(),
    {
        let m = Monitor { enabled: true, history: KeyedVec::new(), counters: KeyedVec::new() };
        assert(m.history() =~= Map::<Seq<char>, Seq<MetricSample>>::empty());
        m
    }

    /// Whether samples are recorded.
    pub fn get_monitoring(&self) -> (b: bool)
        ensures
            b == self.enabled(),
    {
        self.enabled
    }

    /// Turns monitoring on or off; turning it off forgets all samples and
    /// readings.  Returns the new setting.
    pub fn toggle_monitoring(&mut self, enabled: bool) -> (b: bool)
        requires
            old(self).wf(),
        ensures
            final(self).wf(),
            b == enabled,
            final(self).enabled() == enabled,
            enabled ==> final(self).history() == old(self).history() && final(self).counters()
                == old(self).counters(),
            !enabled ==> final(self).history() == Map::<Seq<char>, Seq<MetricSample>>::empty()
                && final(self).counters() == Map::<Seq<char>, (i64, u64, u64)>::empty(),
    {
        self.enabled = enabled;
        if !enabled {
            self.history.clear();
            self.counters.clear();
            assert(self.history() =~= Map::<Seq<char>, Seq<MetricSample>>::empty());
        }
        enabled
    }

    /// The last I/O reading of `id`, if there is one.
    pub fn last_io_reading(&self, id: &str) -> (r: Option<(i64, u64, u64)>)
        requires
            self.wf(),
        ensures
            self.counters().dom().contains(id@) ==> r == Some(self.counters()[id@]),
            !self.counters().dom().contains(id@) ==> r is None,
    {
        match self.counters.get(id) {
            Some(c) => Some(*c),
            None => None,
        }
    }

    /// A copy of the samples of `id` (none if there are none).
    pub fn get_metrics(&self, id: &str) -> (r: Vec<MetricSample>)
        requires
            self.wf(),
        ensures
            self.history().dom().contains(id@) ==> r@ == self.history()[id@],
            !self.history().dom().contains(id@) ==> r@.len() == 0,
    {
        match self.history.get(id) {
            Some(h) => {
                let mut r: Vec<MetricSample> = Vec::new();
                let mut i: usize = 0;
                while i < h.len()
                    invariant
                        i <= h@.len(),
                        r@ == h@.take(i as int),
                    decreases h@.len() - i,
                {
                    r.push(h[i]);
                    i += 1;
                    assert(r@ =~= h@.take(i as int));
                }
                assert(h@.take(h@.len() as int) =~= h@);
                r
            },
            None => Vec::new(),
        }
    }

    /// Appends `sample` to the history of `id` and drops the samples taken
    /// more than `HISTORY_SECS` before it.
    pub fn record_metric(&mut self, id: &str, sample: MetricSample)
        requires
            old(self).wf(),
            sample.ts >= i64::MIN + HISTORY_SECS,
        ensures
            final(self).wf(),
            final(self).enabled() == old(self).enabled(),
            final(self).counters() == old(self).counters(),
            final(self).history() == old(self).history().insert(
                id@,
                drop_older(
                    (if old(self).history().dom().contains(id@) {
                        old(self).history()[id@]
                    } else {
                        Seq::<MetricSample>::empty()
                    }).push(sample),
                    (sample.ts - HISTORY_SECS) as i64,
                ),
            ),
    {
        let mut h: Vec<MetricSample> = match self.history.remove(id) {
            Some(v) => v,
            None => Vec::new(),
        };
        let ghost start = h@;
        h.push(sample);
        let total = h.len();
        let bound = sample.ts - HISTORY_SECS;
        let ghost full = h@;
        let mut dropped: usize = 0;
        proof {
            assert(full.skip(0) =~= full);
        }
        while h.len() > 0 && h[0].ts < bound
            invariant
                h@ == full.skip(dropped as int),
                dropped <= full.len(),
                full.len() == total,
                h@.len() + dropped == total,
                full.len() > 0,
                full.last() == sample,
                drop_older(full, bound) == drop_older(h@, bound),
            decreases h@.len(),
        {
            let ghost before = h@;
            h.remove(0);
            dropped += 1;
            proof {
                assert(before.drop_first() =~= h@);
                assert(drop_older(before, bound) == drop_older(h@, bound));
                assert(h@ =~= full.skip(dropped as int));
            }
        }
        proof {
            assert(drop_older(h@, bound) == h@);
            assert(full == start.push(sample));
        }
        let key = String::from_str(id);
        self.history.insert(key, h);
        proof {
            assert(self.history() =~= old(self).history().insert(id@, drop_older(full, bound)));
        }
    }

    /// A sampling round's I/O reading of `id` at `ts`: with monitoring off,
    /// nothing is recorded (`None`); otherwise the reading is recorded and
    /// the transfer since the previous one is returned, if there was one
    /// (see `io_rates`).
    pub fn sample_io(&mut self, id: &str, ts: i64, read: u64, written: u64) -> (r: Option<Option<(u64, u64, i64)>>)
        requires
            old(self).wf(),
            old(self).counters().dom().contains(id@) ==> i64::MIN <= ts - old(self).counters()[id@].0
                <= i64::MAX,
        ensures
            final(self).wf(),
            final(self).enabled() == old(self).enabled(),
            final(self).history() == old(self).history(),
            !old(self).enabled() ==> r is None && final(self).counters() == old(self).counters(),
            old(self).enabled() ==> r is Some && final(self).counters() == old(self).counters().insert(
                id@,
                (ts, read, written),
            ),
            old(self).enabled() && old(self).counters().dom().contains(id@) ==> r == Some(
                Some(io_delta(old(self).counters()[id@], ts, read, written)),
            ),
            old(self).enabled() && !old(self).counters().dom().contains(id@) ==> r == Some(
                None::<(u64, u64, i64)>,
            ),
    {
        if !self.enabled {
            return None;
        }
        Some(self.io_rates(id, ts, read, written))
    }

    /// Records an I/O reading of `id` taken at `ts` and returns the transfer
    /// since the previous reading (see `io_delta`), if there was one.
    pub fn io_rates(&mut self, id: &str, ts: i64, read: u64, written: u64) -> (r: Option<(u64, u64, i64)>)
        requires
            old(self).wf(),
            old(self).counters().dom().contains(id@) ==> i64::MIN <= ts - old(self).counters()[id@].0
                <= i64::MAX,
        ensures
            final(self).wf(),
            final(self).enabled() == old(self).enabled(),
            final(self).history() == old(self).history(),
            final(self).counters() == old(self).counters().insert(id@, (ts, read, written)),
            old(self).counters().dom().contains(id@) ==> r == Some(
                io_delta(old(self).counters()[id@], ts, read, written),
            ),
            !old(self).counters().dom().contains(id@) ==> r is None,
    {
        let r = match self.counters.get(id) {
            Some(prev) => {
                let (pts, pin, pout) = *prev;
                let dt = ts - pts;
                Some(
                    (
                        read.saturating_sub(pin),
                        written.saturating_sub(pout),
                        if dt > 1 {
                            dt
                        } else {
                            1
                        },
                    ),
                )
            },
            None => None,
        };
        self.counters.insert(String::from_str(id), (ts, read, written));
        r
    }
}

} // verus!
