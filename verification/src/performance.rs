//! Processing statistics: counters of work done and time spent, and timers
//! that record how long named operations took.
use crate::ast::TextMap;
use std::time::{Duration, Instant};
use crate::limits::{duration_millis, instant_elapsed, instant_now};
use vstd::prelude::*;

verus! {

/// Settings for the performance features.
#[derive(Debug, Clone)]
pub struct PerformanceConfig {
    pub max_memory_mb: usize,
    pub enable_parallel: bool,
    pub worker_threads: Option<usize>,
    pub enable_lazy_loading: bool,
    pub stream_chunk_size: usize,
    pub progress_interval: Duration,
}

/// Calls `Duration::from_millis`.
#[verifier::external_body]
fn duration_from_millis(ms: u64) -> Duration {
    Duration::from_millis(ms)
}

impl Default for PerformanceConfig {
    fn default() -> (r: Self)
        ensures
            r.max_memory_mb == 512,
            r.enable_parallel,
            r.worker_threads is None,
            r.enable_lazy_loading,
            r.stream_chunk_size == 8192,
    {
        PerformanceConfig {
            max_memory_mb: 512,
            enable_parallel: true,
            worker_threads: None,
            enable_lazy_loading: true,
            stream_chunk_size: 8192,
            progress_interval: duration_from_millis(100),
        }
    }
}

/// Counters of the work done so far.
#[derive(Debug)]
pub struct PerformanceStats {
    pub bytes_processed: u64,
    pub objects_parsed: u64,
    pub pages_processed: u64,
    pub memory_peak_mb: usize,
    pub memory_current_mb: usize,
    pub parallel_tasks_spawned: u64,
    pub lazy_loads_performed: u64,
    pub parse_time_ms: u64,
    pub filter_time_ms: u64,
    pub validation_time_ms: u64,
    pub serialization_time_ms: u64,
    pub cache_hits: u64,
    pub cache_misses: u64,
    pub io_operations: u64,
    /// The times recorded for each named operation, in order.
    pub operation_times: TextMap<Vec<u64>>,
}

/// The counters in field order: bytes, objects, pages, peak memory,
/// current memory, parallel tasks, lazy loads, parse, filter, validation and
/// serialization time, cache hits, cache misses, I/O operations.
pub open spec fn counters(s: &PerformanceStats) -> Seq<int> {
    seq![
        s.bytes_processed as int,
        s.objects_parsed as int,
        s.pages_processed as int,
        s.memory_peak_mb as int,
        s.memory_current_mb as int,
        s.parallel_tasks_spawned as int,
        s.lazy_loads_performed as int,
        s.parse_time_ms as int,
        s.filter_time_ms as int,
        s.validation_time_ms as int,
        s.serialization_time_ms as int,
        s.cache_hits as int,
        s.cache_misses as int,
        s.io_operations as int
    ]
}

/// Only counter `i` changed, to `v`; the recorded times are as they were.
pub open spec fn only_counter(a: &PerformanceStats, b: &PerformanceStats, i: int, v: int) -> bool {
    &&& counters(b) =~= counters(a).update(i, v)
    &&& b.operation_times.entries_spec() == a.operation_times.entries_spec()
}

impl PerformanceStats {
    /// All counters at zero and no recorded times.
    pub fn new() -> (r: Self)
        ensures
            counters(&r) == seq![0int, 0int, 0int, 0int, 0int, 0int, 0int, 0int, 0int, 0int, 0int, 0int, 0int, 0int],
            r.operation_times.entries_spec().len() == 0,
    {
        PerformanceStats {
            bytes_processed: 0,
            objects_parsed: 0,
            pages_processed: 0,
            memory_peak_mb: 0,
            memory_current_mb: 0,
            parallel_tasks_spawned: 0,
            lazy_loads_performed: 0,
            parse_time_ms: 0,
            filter_time_ms: 0,
            validation_time_ms: 0,
            serialization_time_ms: 0,
            cache_hits: 0,
            cache_misses: 0,
            io_operations: 0,
            operation_times: TextMap::new(),
        }
    }
}

pub fn increment_bytes_processed(stats: &mut PerformanceStats, bytes: u64)
    requires
        old(stats).bytes_processed + bytes <= u64::MAX,
    ensures
        only_counter(old(stats), final(stats), 0, old(stats).bytes_processed + bytes),
{
    stats.bytes_processed = stats.bytes_processed + bytes;
}

pub fn increment_objects_parsed(stats: &mut PerformanceStats, count: u64)
    requires
        old(stats).objects_parsed + count <= u64::MAX,
    ensures
        only_counter(old(stats), final(stats), 1, old(stats).objects_parsed + count),
{
    stats.objects_parsed = stats.objects_parsed + count;
}

pub fn increment_pages_processed(stats: &mut PerformanceStats, count: u64)
    requires
        old(stats).pages_processed + count <= u64::MAX,
    ensures
        only_counter(old(stats), final(stats), 2, old(stats).pages_processed + count),
{
    stats.pages_processed = stats.pages_processed + count;
}

/// Raises the recorded peak to `mb` when `mb` is higher.
pub fn update_memory_peak(stats: &mut PerformanceStats, mb: usize)
    ensures
        only_counter(old(stats), final(stats), 3, if mb > old(stats).memory_peak_mb {
            mb as int
        } else {
            old(stats).memory_peak_mb as int
        }),
{
    if mb > stats.memory_peak_mb {
        stats.memory_peak_mb = mb;
    }
}

pub fn increment_parallel_tasks(stats: &mut PerformanceStats)
    requires
        old(stats).parallel_tasks_spawned < u64::MAX,
    ensures
        only_counter(old(stats), final(stats), 5, old(stats).parallel_tasks_spawned + 1),
{
    stats.parallel_tasks_spawned = stats.parallel_tasks_spawned + 1;
}

pub fn increment_lazy_loads(stats: &mut PerformanceStats)
    requires
        old(stats).lazy_loads_performed < u64::MAX,
    ensures
        only_counter(old(stats), final(stats), 6, old(stats).lazy_loads_performed + 1),
{
    stats.lazy_loads_performed = stats.lazy_loads_performed + 1;
}

/// Puts every counter back to zero and forgets the recorded times.
pub fn reset_performance_stats(stats: &mut PerformanceStats)
    ensures
        counters(final(stats)) == seq![0int, 0int, 0int, 0int, 0int, 0int, 0int, 0int, 0int, 0int, 0int, 0int, 0int, 0int],
        final(stats).operation_times.entries_spec().len() == 0,
{
    *stats = PerformanceStats::new();
}

/// Records the current memory use, raising the peak when it is higher.
pub fn update_current_memory(stats: &mut PerformanceStats, mb: usize)
    ensures
        counters(final(stats)) == counters(old(stats)).update(4, mb as int).update(3, if mb > old(stats).memory_peak_mb {
            mb as int
        } else {
            old(stats).memory_peak_mb as int
        }),
        final(stats).operation_times.entries_spec() == old(stats).operation_times.entries_spec(),
{
    stats.memory_current_mb = mb;
    update_memory_peak(stats, mb);
}

pub fn add_parse_time(stats: &mut PerformanceStats, ms: u64)
    requires
        old(stats).parse_time_ms + ms <= u64::MAX,
    ensures
        only_counter(old(stats), final(stats), 7, old(stats).parse_time_ms + ms),
{
    stats.parse_time_ms = stats.parse_time_ms + ms;
}

pub fn add_filter_time(stats: &mut PerformanceStats, ms: u64)
    requires
        old(stats).filter_time_ms + ms <= u64::MAX,
    ensures
        only_counter(old(stats), final(stats), 8, old(stats).filter_time_ms + ms),
{
    stats.filter_time_ms = stats.filter_time_ms + ms;
}

pub fn add_validation_time(stats: &mut PerformanceStats, ms: u64)
    requires
        old(stats).validation_time_ms + ms <= u64::MAX,
    ensures
        only_counter(old(stats), final(stats), 9, old(stats).validation_time_ms + ms),
{
    stats.validation_time_ms = stats.validation_time_ms + ms;
}

pub fn add_serialization_time(stats: &mut PerformanceStats, ms: u64)
    requires
        old(stats).serialization_time_ms + ms <= u64::MAX,
    ensures
        only_counter(old(stats), final(stats), 10, old(stats).serialization_time_ms + ms),
{
    stats.serialization_time_ms = stats.serialization_time_ms + ms;
}

pub fn increment_cache_hits(stats: &mut PerformanceStats)
    requires
        old(stats).cache_hits < u64::MAX,
    ensures
        only_counter(old(stats), final(stats), 11, old(stats).cache_hits + 1),
{
    stats.cache_hits = stats.cache_hits + 1;
}

pub fn increment_cache_misses(stats: &mut PerformanceStats)
    requires
        old(stats).cache_misses < u64::MAX,
    ensures
        only_counter(old(stats), final(stats), 12, old(stats).cache_misses + 1),
{
    stats.cache_misses = stats.cache_misses + 1;
}

pub fn increment_io_operations(stats: &mut PerformanceStats)
    requires
        old(stats).io_operations < u64::MAX,
    ensures
        only_counter(old(stats), final(stats), 13, old(stats).io_operations + 1),
{
    stats.io_operations = stats.io_operations + 1;
}

/// The times recorded for `operation`.
pub open spec fn recorded_times(stats: &PerformanceStats, operation: Seq<char>) -> Seq<u64> {
    match stats.operation_times.spec_get(operation) {
        Some(v) => v@,
        None => Seq::empty(),
    }
}

/// Appends `ms` to the times recorded for `operation`.
pub fn record_operation_time(stats: &mut PerformanceStats, operation: &str, ms: u64)
    ensures
        recorded_times(final(stats), operation@) == recorded_times(old(stats), operation@).push(ms),
        forall|other: Seq<char>|
            other != operation@ ==> #[trigger] recorded_times(final(stats), other) == recorded_times(old(stats), other),
        counters(final(stats)) == counters(old(stats)),
{
    let mut times: Vec<u64> = match stats.operation_times.get(operation) {
        Some(v) => {
            let mut copy: Vec<u64> = Vec::new();
            let mut i: usize = 0;
            while i < v.len()
                invariant
                    i <= v@.len(),
                    copy@ == v@.take(i as int),
                decreases v@.len() - i,
            {
                copy.push(v[i]);
                proof {
                    assert(v@.take(i + 1) =~= v@.take(i as int).push(v@[i as int]));
                }
                i = i + 1;
            }
            proof {
                assert(v@.take(i as int) =~= v@);
            }
            copy
        },
        None => Vec::new(),
    };
    times.push(ms);
    stats.operation_times.insert(String::from_str(operation), times);
}

/// Whole milliseconds since `start`, at most `u64::MAX`.
fn elapsed_millis(start: &Instant) -> u64 {
    let ms = duration_millis(&instant_elapsed(start));
    if ms > u64::MAX as u128 {
        u64::MAX
    } else {
        ms as u64
    }
}

/// Measures how long a named operation takes.
#[derive(Debug)]
pub struct PerformanceTimer {
    operation: String,
    start: Instant,
}

impl PerformanceTimer {
    pub closed spec fn operation_name(&self) -> Seq<char> {
        self.operation@
    }

    pub fn new(operation: &str) -> (r: Self)
        ensures
            r.operation_name() == operation@,
    {
        PerformanceTimer { operation: String::from_str(operation), start: instant_now() }
    }

    /// Records the time taken under the operation's name and returns it.
    pub fn finish(self, stats: &mut PerformanceStats) -> (r: u64)
        ensures
            recorded_times(final(stats), self.operation_name()) == recorded_times(old(stats), self.operation_name()).push(r),
            counters(final(stats)) == counters(old(stats)),
    {
        let elapsed = elapsed_millis(&self.start);
        record_operation_time(stats, self.operation.as_str(), elapsed);
        elapsed
    }
}

pub fn start_timer(operation: &str) -> (r: PerformanceTimer)
    ensures
        r.operation_name() == operation@,
{
    PerformanceTimer::new(operation)
}

#[derive(Debug, Clone, Copy, PartialEq, Eq, Structural)]
pub enum BottleneckSeverity {
    Low,
    Medium,
    High,
    Critical,
}

/// Turns the statistics into a report.
pub struct PerformanceAnalyzer;

/// Memory use against a limit, in bytes and whole megabytes, with the use
/// of each category.
#[derive(Debug)]
pub struct MemoryStats {
    pub current_usage_bytes: usize,
    pub current_usage_mb: usize,
    pub peak_usage_bytes: usize,
    pub peak_usage_mb: usize,
    pub limit_bytes: usize,
    pub limit_mb: usize,
    pub available_bytes: usize,
    pub allocation_count: usize,
    pub usage_by_category: TextMap<usize>,
}

impl MemoryStats {
    /// The figures for `current` bytes in use, a peak of `peak` and a
    /// limit of `limit` bytes: megabytes are whole megabytes, and what is
    /// available is what the limit leaves.
    pub fn from_usage(current: usize, peak: usize, limit: usize, allocation_count: usize) -> (r: Self)
        ensures
            r.current_usage_bytes == current,
            r.current_usage_mb == current / 1048576,
            r.peak_usage_bytes == peak,
            r.peak_usage_mb == peak / 1048576,
            r.limit_bytes == limit,
            r.limit_mb == limit / 1048576,
            r.available_bytes == if limit > current { limit - current } else { 0 },
            r.allocation_count == allocation_count,
    {
        MemoryStats {
            current_usage_bytes: current,
            current_usage_mb: current / 1048576,
            peak_usage_bytes: peak,
            peak_usage_mb: peak / 1048576,
            limit_bytes: limit,
            limit_mb: limit / 1048576,
            available_bytes: if limit > current {
                limit - current
            } else {
                0
            },
            allocation_count,
            usage_by_category: TextMap::new(),
        }
    }
}


/// Where the run of bytes from `i` (before `e`) that are white space, or
/// that are not when `ws` is false, ends.
pub open spec fn run_end(d: Seq<u8>, i: int, e: int, ws: bool) -> int
    decreases e - i,
{
    if 0 <= i < e && i < d.len() && crate::reference_resolver::is_text_ws(d[i]) == ws {
        run_end(d, i + 1, e, ws)
    } else {
        i
    }
}

/// Where the line starting at `s` ends: at its line feed or the end.
pub open spec fn line_end(d: Seq<u8>, s: int) -> int
    decreases d.len() - s,
{
    if 0 <= s < d.len() && d[s] != 10 {
        line_end(d, s + 1)
    } else {
        s
    }
}

/// The kilobytes a status line `d[s..e]` gives: one that starts with
/// `VmRSS:` and whose second white-space separated field is a number.
pub open spec fn vmrss_line(d: Seq<u8>, s: int, e: int) -> Option<int> {
    if e - s >= 6 && d.subrange(s, s + 6) == seq![86u8, 109u8, 82u8, 83u8, 83u8, 58u8] {
        let a = run_end(d, s, e, false);
        let b = run_end(d, a, e, true);
        let c = run_end(d, b, e, false);
        if b < e {
            crate::reference_resolver::spec_unsigned(d, b, c, usize::MAX as int)
        } else {
            None
        }
    } else {
        None
    }
}

/// The resident memory, in whole megabytes, that a process status text
/// gives from line `s` on: the first `VmRSS:` line whose value reads.
pub open spec fn spec_vmrss_mb(d: Seq<u8>, s: int) -> Option<int>
    decreases d.len() - s,
{
    if s < 0 || s >= d.len() {
        None
    } else {
        let e = line_end(d, s);
        match vmrss_line(d, s, e) {
            Some(kb) => Some(kb / 1024),
            None => if e < s || e >= d.len() {
                None
            } else {
                spec_vmrss_mb(d, e + 1)
            },
        }
    }
}

fn run_end_exec(d: &[u8], i: usize, e: usize, ws: bool) -> (r: usize)
    requires
        i <= e <= d@.len(),
    ensures
        r == run_end(d@, i as int, e as int, ws),
        i <= r <= e,
{
    let mut j = i;
    while j < e && crate::reference_resolver::text_ws(d[j]) == ws
        invariant
            i <= j <= e <= d@.len(),
            run_end(d@, j as int, e as int, ws) == run_end(d@, i as int, e as int, ws),
        decreases e - j,
    {
        j = j + 1;
    }
    j
}

/// The resident memory in whole megabytes that a process status text
/// (as Linux gives it) reports on its first readable `VmRSS:` line.
pub fn memory_mb_from_status(status: &[u8]) -> (r: Option<usize>)
    ensures
        match spec_vmrss_mb(status@, 0) {
            Some(mb) => r == Some(mb as usize),
            None => r is None,
        },
{
    let n = status.len();
    let tag: [u8; 6] = [86, 109, 82, 83, 83, 58];
    proof {
        assert(tag@ =~= seq![86u8, 109u8, 82u8, 83u8, 83u8, 58u8]);
    }
    let mut s: usize = 0;
    while s < n
        invariant
            n == status@.len(),
            s <= n,
            spec_vmrss_mb(status@, 0) == spec_vmrss_mb(status@, s as int),
            tag@ == seq![86u8, 109u8, 82u8, 83u8, 83u8, 58u8],
        decreases n - s,
    {
        let mut e = s;
        while e < n && status[e] != 10
            invariant
                s <= e <= n,
                n == status@.len(),
                line_end(status@, e as int) == line_end(status@, s as int),
            decreases n - e,
        {
            e = e + 1;
        }
        proof {
            assert(e == line_end(status@, s as int));
        }
        let tag_s = tag.as_slice();
        proof {
            assert(tag_s@ == seq![86u8, 109u8, 82u8, 83u8, 83u8, 58u8]);
            assert((usize::MAX as u64) as int == usize::MAX as int);
        }
        if e - s >= 6 && crate::object_parser::bytes_at(status, s, tag_s) {
            let a = run_end_exec(status, s, e, false);
            let b = run_end_exec(status, a, e, true);
            let c = run_end_exec(status, b, e, false);
            if b < e {
                match crate::reference_resolver::parse_unsigned(status, b, c, usize::MAX as u64) {
                    Some(kb) => {
                        proof {
                            assert(vmrss_line(status@, s as int, e as int) == Some(kb as int));
                            assert(spec_vmrss_mb(status@, s as int) == Some(kb as int / 1024));
                        }
                        return Some((kb / 1024) as usize);
                    },
                    None => {
                        proof {
                            assert(vmrss_line(status@, s as int, e as int) is None);
                        }
                    },
                }
            } else {
                proof {
                    assert(vmrss_line(status@, s as int, e as int) is None);
                }
            }
        } else {
            proof {
                assert(vmrss_line(status@, s as int, e as int) is None);
            }
        }
        if e >= n {
            return None;
        }
        s = e + 1;
    }
    None
}

} // verus!
