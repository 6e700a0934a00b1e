//! Per-application log buffers, capped at `MAX_LOGS` lines.
use vstd::prelude::*;
use crate::keyed::KeyedVec;
use crate::models::LogEntry;

verus! {

/// Largest number of lines kept per application; older lines are dropped.
pub const MAX_LOGS: usize = 2000;

/// Log buffers of all applications, by application id.
pub type LogBuffers = KeyedVec<Vec<LogEntry>>;

/// A point in time of the system clock (`std::time::SystemTime`), carried
/// through unopened.
#[verifier::external_type_specification]
#[verifier::external_body]
pub struct ExSystemTime(std::time::SystemTime);

/// `SystemTime::now`: the current time of the system clock.  Nothing is
/// stated of it: it depends on the moment of the call.
#[verifier::external_body]
fn system_now() -> std::time::SystemTime {
    std::time::SystemTime::now()
}

/// `SystemTime::duration_since(UNIX_EPOCH)`: the time elapsed since the
/// Unix epoch, `None` for a time before it.  Nothing more is stated.
#[verifier::external_body]
fn since_unix_epoch(t: &std::time::SystemTime) -> Option<std::time::Duration> {
    t.duration_since(std::time::UNIX_EPOCH).ok()
}

/// `Duration::as_secs`: the whole seconds of a duration.  A duration is
/// opaque here, so nothing is stated of the result.
#[verifier::external_body]
fn whole_seconds(d: &std::time::Duration) -> u64 {
    d.as_secs()
}

/// A clock reading as a time stamp: the whole seconds since the Unix epoch
/// (as `i64`, like `as`), or 0 for a reading before the epoch.
pub open spec fn stamp_of(secs: Option<u64>) -> i64 {
    match secs {
        Some(s) => s as i64,
        None => 0i64,
    }
}

/// The time stamp of a clock reading (see `stamp_of`).
pub fn seconds_or_zero(secs: Option<u64>) -> (r: i64)
    ensures
        r == stamp_of(secs),
{
    match secs {
        Some(s) => s as i64,
        None => 0,
    }
}

/// The current time in whole seconds since the Unix epoch (0 for a clock
/// set before it): the time stamp of some reading of the clock, which
/// itself is not stated.
pub fn now_ts() -> (r: i64)
    ensures
        exists|secs: Option<u64>| r == stamp_of(secs),
{
    let t = system_now();
    let secs = match since_unix_epoch(&t) {
        Some(d) => Some(whole_seconds(&d)),
        None => None,
    };
    seconds_or_zero(secs)
}

/// Number of lines dropped when a buffer holding `n` lines receives one more.
pub open spec fn overflow(n: nat) -> nat {
    if n + 1 > MAX_LOGS {
        (n + 1 - MAX_LOGS) as nat
    } else {
        0
    }
}

/// `after` is `before` with a line (`ts`, `level`, `content`) appended, the
/// oldest lines dropped so that at most `MAX_LOGS` remain.
pub open spec fn appended(
    before: Seq<LogEntry>,
    after: Seq<LogEntry>,
    ts: i64,
    level: Seq<char>,
    content: Seq<char>,
) -> bool {
    let d = overflow(before.len());
    &&& after.len() == before.len() + 1 - d
    &&& forall|i: int| 0 <= i < after.len() - 1 ==> #[trigger] after[i] == before[i + d]
    &&& after.last().timestamp == ts
    &&& after.last().level@ == level
    &&& after.last().content@ == content
}

/// Appends a line stamped `ts` and drops the oldest lines beyond `MAX_LOGS`.
pub fn push_log_at(logs: &mut Vec<LogEntry>, ts: i64, level: &str, content: &str)
    ensures
        appended(old(logs)@, final(logs)@, ts, level@, content@),
        final(logs)@.len() <= MAX_LOGS,
        old(logs)@.len() < MAX_LOGS ==> final(logs)@.len() == old(logs)@.len() + 1,
{
    let entry = LogEntry {
        timestamp: ts,
        level: String::from_str(level),
        content: String::from_str(content),
    };
    logs.push(entry);
    let total = logs.len();
    let ghost full = logs@;
    let ghost d = overflow(old(logs)@.len());
    let mut removed: usize = 0;
    while logs.len() > MAX_LOGS
        invariant
            full == old(logs)@.push(entry),
            d == overflow(old(logs)@.len()),
            removed <= d,
            logs@ == full.skip(removed as int),
            full.len() == total,
            logs@.len() + removed == full.len(),
        decreases logs@.len(),
    {
        logs.remove(0);
        removed += 1;
        assert(logs@ =~= full.skip(removed as int));
    }
    assert(removed == d);
}

/// Appends a line stamped with the current time (see `push_log_at`).
pub fn push_log(logs: &mut Vec<LogEntry>, level: &str, content: &str)
    ensures
        exists|ts: i64| appended(old(logs)@, final(logs)@, ts, level@, content@),
        final(logs)@.len() <= MAX_LOGS,
{
    let ts = now_ts();
    push_log_at(logs, ts, level, content);
}

/// Appends a line stamped `ts` to the buffer of `app_id`; applications
/// without a buffer are left alone.
pub fn push_to_buffer_at(buffers: &mut LogBuffers, app_id: &str, ts: i64, level: &str, content: &str)
    requires
        old(buffers).wf(),
    ensures
        final(buffers).wf(),
        final(buffers)@.dom() == old(buffers)@.dom(),
        forall|k: Seq<char>| k != app_id@ ==> #[trigger] final(buffers)@.index(k) == old(buffers)@.index(k),
        old(buffers)@.dom().contains(app_id@) ==> appended(
            old(buffers)@[app_id@]@,
            final(buffers)@[app_id@]@,
            ts,
            level@,
            content@,
        ),
        !old(buffers)@.dom().contains(app_id@) ==> final(buffers)@ == old(buffers)@,
{
    match buffers.find(app_id) {
        Some(i) => {
            let (key, mut logs) = buffers.remove_at(i);
            push_log_at(&mut logs, ts, level, content);
            buffers.insert(key, logs);
            proof {
                assert(final(buffers)@.dom() =~= old(buffers)@.dom());
            }
        },
        None => {},
    }
}

/// Appends a line stamped with the current time to the buffer of `app_id`
/// (see `push_to_buffer_at`).
pub fn push_to_buffer(buffers: &mut LogBuffers, app_id: &str, level: &str, content: &str)
    requires
        old(buffers).wf(),
    ensures
        final(buffers).wf(),
        final(buffers)@.dom() == old(buffers)@.dom(),
        forall|k: Seq<char>| k != app_id@ ==> #[trigger] final(buffers)@.index(k) == old(buffers)@.index(k),
        old(buffers)@.dom().contains(app_id@) ==> exists|ts: i64|
            appended(old(buffers)@[app_id@]@, final(buffers)@[app_id@]@, ts, level@, content@),
        !old(buffers)@.dom().contains(app_id@) ==> final(buffers)@ == old(buffers)@,
{
    let ts = now_ts();
    push_to_buffer_at(buffers, app_id, ts, level, content);
}

} // verus!
