//! Resource budgets and performance limits shared by the parsers.
//!
//! A `ResourceBudget` holds limits together with counters that every clone of
//! the budget shares.  Other clones (and other threads) may move the counters
//! at any time, so the contracts here state what holds whatever value a
//! counter had when it was read.
use std::sync::atomic::{AtomicBool, AtomicU64, AtomicUsize};
use std::sync::Arc;
use std::time::{Duration, Instant};
use vstd::prelude::*;

verus! {

#[verifier::external_type_specification]
#[verifier::external_body]
pub struct ExInstant(Instant);

/// `Duration` is `Copy`; its `clone` gives back an equal value.
pub assume_specification[ <Duration as Clone>::clone ](d: &Duration) -> (r: Duration)
    ensures
        r == *d,
;

pub const MEGABYTE: usize = 1048576;

/// `mb` megabytes in bytes, saturating at `u64::MAX`.
pub open spec fn mb_bytes_u64(mb: nat) -> nat {
    if mb * 1048576 > u64::MAX { u64::MAX as nat } else { mb * 1048576 }
}

/// `mb` megabytes in bytes, saturating at `usize::MAX`.
pub open spec fn mb_bytes_usize(mb: nat) -> nat {
    if mb * 1048576 > usize::MAX { usize::MAX as nat } else { mb * 1048576 }
}

/// Whole megabytes needed to hold `bytes` bytes (rounded up).
pub open spec fn mb_ceil(bytes: nat) -> nat {
    if bytes % 1048576 == 0 { bytes / 1048576 } else { bytes / 1048576 + 1 }
}

pub fn mb_to_bytes_u64(mb: usize) -> (r: u64)
    ensures r == mb_bytes_u64(mb as nat),
{
    let m: u64 = mb as u64;
    if m > u64::MAX / 1048576 {
        u64::MAX
    } else {
        m * 1048576
    }
}

pub fn mb_to_bytes_usize(mb: usize) -> (r: usize)
    ensures r == mb_bytes_usize(mb as nat),
{
    if mb > usize::MAX / MEGABYTE {
        usize::MAX
    } else {
        mb * MEGABYTE
    }
}

pub fn bytes_to_mb_ceil(bytes: usize) -> (r: usize)
    ensures r == mb_ceil(bytes as nat),
{
    let whole: usize = bytes / MEGABYTE;
    if bytes % MEGABYTE == 0 {
        whole
    } else {
        whole + 1
    }
}

/// Calls `Instant::now`: the current reading of the monotonic clock, of
/// which nothing is promised.
#[verifier::external_body]
pub(crate) fn instant_now() -> Instant {
    Instant::now()
}

/// Calls `Instant`'s `>=`: whether `now` is at or past `deadline`; it
/// depends on the clock readings, so nothing is promised of it.
#[verifier::external_body]
fn instant_reached(now: &Instant, deadline: &Instant) -> bool {
    *now >= *deadline
}

/// Calls `Instant::elapsed`: the time since `start`, which depends on the
/// clock, so nothing is promised of it.
#[verifier::external_body]
pub(crate) fn instant_elapsed(start: &Instant) -> Duration {
    start.elapsed()
}

/// Calls `Duration::as_millis`: the whole milliseconds of `d`; nothing is
/// stated of a duration's contents, so nothing is promised of the result.
#[verifier::external_body]
pub(crate) fn duration_millis(d: &Duration) -> u128 {
    d.as_millis()
}

/// Calls `Duration`'s `>`: whether `elapsed` is longer than `max`.
#[verifier::external_body]
fn duration_exceeds(elapsed: &Duration, max: &Duration) -> bool {
    *elapsed > *max
}

/// Calls `Duration::from_secs`: a duration of `secs` seconds.
#[verifier::external_body]
fn duration_from_secs(secs: u64) -> Duration {
    Duration::from_secs(secs)
}

/// A cancellation flag shared by every clone of a budget.
#[derive(Debug, Clone)]
pub struct CancellationToken(Arc<AtomicBool>);

impl Default for CancellationToken {
    fn default() -> (r: Self) {
        CancellationToken(Arc::new(AtomicBool::new(false)))
    }
}

impl CancellationToken {
    pub fn cancel(&self) {
        self.0.store(true, std::sync::atomic::Ordering::Relaxed);
    }

    pub fn is_cancelled(&self) -> bool {
        self.0.load(std::sync::atomic::Ordering::Relaxed)
    }
}

#[derive(Debug, Clone, Copy, PartialEq, Eq, Structural)]
pub enum ResourceBudgetError {
    InputBytes,
    DecodedBytes,
    Objects,
    Nodes,
    Edges,
    Deadline,
    Cancelled,
}

pub open spec fn budget_error_name(e: ResourceBudgetError) -> Seq<char> {
    match e {
        ResourceBudgetError::InputBytes => "InputBytes"@,
        ResourceBudgetError::DecodedBytes => "DecodedBytes"@,
        ResourceBudgetError::Objects => "Objects"@,
        ResourceBudgetError::Nodes => "Nodes"@,
        ResourceBudgetError::Edges => "Edges"@,
        ResourceBudgetError::Deadline => "Deadline"@,
        ResourceBudgetError::Cancelled => "Cancelled"@,
    }
}

impl ResourceBudgetError {
    /// The message the error is shown with: the prefix
    /// `resource budget exceeded: ` followed by the variant's name.
    pub fn to_string(&self) -> (r: String)
        ensures
            r@ == "resource budget exceeded: "@ + budget_error_name(*self),
    {
        let mut s = String::from_str("resource budget exceeded: ");
        let name = match self {
            ResourceBudgetError::InputBytes => "InputBytes",
            ResourceBudgetError::DecodedBytes => "DecodedBytes",
            ResourceBudgetError::Objects => "Objects",
            ResourceBudgetError::Nodes => "Nodes",
            ResourceBudgetError::Edges => "Edges",
            ResourceBudgetError::Deadline => "Deadline",
            ResourceBudgetError::Cancelled => "Cancelled",
        };
        s.append(name);
        s
    }
}

/// The next value of a shared counter that grows by `amount` without
/// passing `limit`, or `None` when that step is refused.
pub open spec fn counter_step(current: u64, amount: u64, limit: u64) -> Option<u64> {
    if current + amount <= limit {
        Some((current + amount) as u64)
    } else {
        None
    }
}

fn next_counter_value(current: u64, amount: u64, limit: u64) -> (r: Option<u64>)
    ensures
        r == counter_step(current, amount, limit),
{
    match current.checked_add(amount) {
        Some(next) => if next > limit {
            None
        } else {
            Some(next)
        },
        None => None,
    }
}

/// Calls `AtomicU64::fetch_update`, whose closure computes the next value
/// with `next_counter_value`.  By the documentation of `fetch_update`, the
/// result is `Ok(previous)` when the closure returned `Some` on the value it
/// replaced, and `Err(observed)` when the closure returned `None` on the last
/// value it saw.
#[verifier::external_body]
fn reserve_counter(counter: &AtomicU64, amount: u64, limit: u64) -> (r: Result<u64, u64>)
    ensures
        r matches Ok(prev) ==> counter_step(prev, amount, limit) is Some,
        r matches Err(cur) ==> counter_step(cur, amount, limit) is None,
{
    counter.fetch_update(
        std::sync::atomic::Ordering::AcqRel,
        std::sync::atomic::Ordering::Acquire,
        |current| next_counter_value(current, amount, limit),
    )
}

/// Limits with counters shared between all clones of the budget.
#[derive(Debug, Clone)]
pub struct ResourceBudget {
    pub max_input_bytes: u64,
    pub max_decoded_bytes_total: u64,
    pub max_decoded_bytes_per_stream: u64,
    pub max_decode_ratio: u64,
    pub max_objects: usize,
    pub max_nodes: usize,
    pub max_edges: usize,
    pub max_depth: usize,
    pub deadline: Option<Instant>,
    pub cancellation: CancellationToken,
    /// The shared usage counters; only the budget's methods move them.
    pub counters: BudgetCounters,
}

/// Usage counters shared by every clone of a `ResourceBudget`.
#[derive(Debug, Clone)]
pub struct BudgetCounters {
    input_bytes: Arc<AtomicU64>,
    decoded_bytes_total: Arc<AtomicU64>,
    objects: Arc<AtomicU64>,
    nodes: Arc<AtomicU64>,
    edges: Arc<AtomicU64>,
}

/// What a budgeted operation may answer: success, the error of the limit it
/// charges, or an interruption (cancellation, or a deadline when one is set).
pub open spec fn budget_outcome(
    budget: &ResourceBudget,
    r: Result<(), ResourceBudgetError>,
    limit_error: ResourceBudgetError,
) -> bool {
    ||| r is Ok
    ||| r == Err::<(), ResourceBudgetError>(limit_error)
    ||| r == Err::<(), ResourceBudgetError>(ResourceBudgetError::Cancelled)
    ||| (r == Err::<(), ResourceBudgetError>(ResourceBudgetError::Deadline) && budget.deadline is Some)
}

impl Default for ResourceBudget {
    fn default() -> (r: Self)
        ensures
            r.max_input_bytes == 104857600,
            r.max_decoded_bytes_total == 1073741824,
            r.max_decoded_bytes_per_stream == 52428800,
            r.max_decode_ratio == 100,
            r.max_objects == 1000000,
            r.max_nodes == 1000000,
            r.max_edges == 5000000,
            r.max_depth == 1000,
            r.deadline is None,
    {
        Self::new(104857600, 1073741824, 52428800, 100, 1000000, 1000000, 5000000, 1000)
    }
}

impl ResourceBudget {
    pub fn new(
        max_input_bytes: u64,
        max_decoded_bytes_total: u64,
        max_decoded_bytes_per_stream: u64,
        max_decode_ratio: u64,
        max_objects: usize,
        max_nodes: usize,
        max_edges: usize,
        max_depth: usize,
    ) -> (r: Self)
        ensures
            r.max_input_bytes == max_input_bytes,
            r.max_decoded_bytes_total == max_decoded_bytes_total,
            r.max_decoded_bytes_per_stream == max_decoded_bytes_per_stream,
            r.max_decode_ratio == max_decode_ratio,
            r.max_objects == max_objects,
            r.max_nodes == max_nodes,
            r.max_edges == max_edges,
            r.max_depth == max_depth,
            r.deadline is None,
    {
        Self {
            max_input_bytes,
            max_decoded_bytes_total,
            max_decoded_bytes_per_stream,
            max_decode_ratio,
            max_objects,
            max_nodes,
            max_edges,
            max_depth,
            deadline: None,
            cancellation: CancellationToken::default(),
            counters: BudgetCounters {
                input_bytes: Arc::new(AtomicU64::new(0)),
                decoded_bytes_total: Arc::new(AtomicU64::new(0)),
                objects: Arc::new(AtomicU64::new(0)),
                nodes: Arc::new(AtomicU64::new(0)),
                edges: Arc::new(AtomicU64::new(0)),
            },
        }
    }

    /// Fails when the budget was cancelled or its deadline has passed.
    pub fn check(&self) -> (r: Result<(), ResourceBudgetError>)
        ensures
            r is Ok || r == Err::<(), ResourceBudgetError>(ResourceBudgetError::Cancelled)
                || (r == Err::<(), ResourceBudgetError>(ResourceBudgetError::Deadline)
                && self.deadline is Some),
    {
        if self.cancellation.is_cancelled() {
            return Err(ResourceBudgetError::Cancelled);
        }
        match &self.deadline {
            Some(deadline) => {
                let now = instant_now();
                if instant_reached(&now, deadline) {
                    return Err(ResourceBudgetError::Deadline);
                }
            },
            None => {},
        }
        Ok(())
    }

    /// Charges `bytes` input bytes; refused when the shared total would pass
    /// `max_input_bytes`, so in particular whenever `bytes > max_input_bytes`.
    pub fn consume_input(&self, bytes: u64) -> (r: Result<(), ResourceBudgetError>)
        ensures
            budget_outcome(self, r, ResourceBudgetError::InputBytes),
            bytes > self.max_input_bytes ==> r is Err,
    {
        self.consume_bytes(&self.counters.input_bytes, self.max_input_bytes, bytes, ResourceBudgetError::InputBytes)
    }

    /// Charges `bytes` decoded bytes; refused when `bytes` passes the
    /// per-stream limit or the shared total would pass the total limit.
    pub fn consume_decoded(&self, bytes: u64) -> (r: Result<(), ResourceBudgetError>)
        ensures
            budget_outcome(self, r, ResourceBudgetError::DecodedBytes),
            bytes > self.max_decoded_bytes_per_stream ==> r is Err,
            bytes > self.max_decoded_bytes_total ==> r is Err,
    {
        self.check()?;
        if bytes > self.max_decoded_bytes_per_stream {
            return Err(ResourceBudgetError::DecodedBytes);
        }
        self.consume_bytes(
            &self.counters.decoded_bytes_total,
            self.max_decoded_bytes_total,
            bytes,
            ResourceBudgetError::DecodedBytes,
        )
    }

    /// How many decoded bytes the shared total still allows.
    pub fn remaining_decoded_bytes(&self) -> (r: u64)
        ensures
            r <= self.max_decoded_bytes_total,
    {
        let used = self.counters.decoded_bytes_total.load(std::sync::atomic::Ordering::Acquire);
        self.max_decoded_bytes_total.saturating_sub(used)
    }

    pub fn consume_object(&self) -> (r: Result<(), ResourceBudgetError>)
        ensures
            budget_outcome(self, r, ResourceBudgetError::Objects),
            self.max_objects == 0 ==> r is Err,
    {
        self.consume_counter(&self.counters.objects, self.max_objects, ResourceBudgetError::Objects)
    }

    pub fn consume_node(&self) -> (r: Result<(), ResourceBudgetError>)
        ensures
            budget_outcome(self, r, ResourceBudgetError::Nodes),
            self.max_nodes == 0 ==> r is Err,
    {
        self.consume_counter(&self.counters.nodes, self.max_nodes, ResourceBudgetError::Nodes)
    }

    pub fn consume_edge(&self) -> (r: Result<(), ResourceBudgetError>)
        ensures
            budget_outcome(self, r, ResourceBudgetError::Edges),
            self.max_edges == 0 ==> r is Err,
    {
        self.consume_counter(&self.counters.edges, self.max_edges, ResourceBudgetError::Edges)
    }

    fn consume_counter(&self, counter: &AtomicU64, limit: usize, error: ResourceBudgetError) -> (r:
        Result<(), ResourceBudgetError>)
        ensures
            budget_outcome(self, r, error),
            limit == 0 ==> r is Err,
    {
        self.check()?;
        let limit: u64 = limit as u64;
        match reserve_counter(counter, 1, limit) {
            Ok(_) => Ok(()),
            Err(_) => Err(error),
        }
    }

    fn consume_bytes(&self, counter: &AtomicU64, limit: u64, bytes: u64, error: ResourceBudgetError) -> (r:
        Result<(), ResourceBudgetError>)
        ensures
            budget_outcome(self, r, error),
            bytes > limit ==> r is Err,
    {
        self.check()?;
        match reserve_counter(counter, bytes, limit) {
            Ok(_) => Ok(()),
            Err(_) => Err(error),
        }
    }
}

#[derive(Debug, Clone)]
pub struct PerformanceLimits {
    pub max_nodes: usize,
    pub max_edges: usize,
    pub max_memory_mb: usize,
    pub max_parse_time: Duration,
    pub max_query_time: Duration,
    pub max_depth: usize,
    pub max_file_size_mb: usize,
    pub max_object_size_mb: usize,
    pub max_stream_decode_ratio: usize,
    pub max_concurrent_parsers: usize,
    pub enable_timeout_checks: bool,
    pub enable_memory_checks: bool,
    pub enable_recursion_checks: bool,
    pub budget: ResourceBudget,
}

impl PerformanceLimits {
    /// The budget's limits are those that the integer limits describe.
    pub open spec fn budget_matches(&self) -> bool {
        &&& self.budget.max_input_bytes == mb_bytes_u64(self.max_file_size_mb as nat)
        &&& self.budget.max_decoded_bytes_total == mb_bytes_u64(self.max_memory_mb as nat)
        &&& self.budget.max_decoded_bytes_per_stream == mb_bytes_u64(self.max_object_size_mb as nat)
        &&& self.budget.max_decode_ratio == self.max_stream_decode_ratio
        &&& self.budget.max_objects == self.max_nodes
        &&& self.budget.max_nodes == self.max_nodes
        &&& self.budget.max_edges == self.max_edges
        &&& self.budget.max_depth == self.max_depth
    }
}

impl Default for PerformanceLimits {
    fn default() -> (r: Self)
        ensures
            r.max_nodes == 1000000,
            r.max_edges == 5000000,
            r.max_memory_mb == 1024,
            r.max_depth == 1000,
            r.max_file_size_mb == 100,
            r.max_object_size_mb == 50,
            r.max_stream_decode_ratio == 100,
            r.max_concurrent_parsers == 4,
            r.enable_timeout_checks,
            r.enable_memory_checks,
            r.enable_recursion_checks,
            r.budget_matches(),
            r.budget.deadline is None,
    {
        let mut limits = Self {
            max_nodes: 1000000,
            max_edges: 5000000,
            max_memory_mb: 1024,
            max_parse_time: duration_from_secs(300),
            max_query_time: duration_from_secs(30),
            max_depth: 1000,
            max_file_size_mb: 100,
            max_object_size_mb: 50,
            max_stream_decode_ratio: 100,
            max_concurrent_parsers: 4,
            enable_timeout_checks: true,
            enable_memory_checks: true,
            enable_recursion_checks: true,
            budget: ResourceBudget::default(),
        };
        limits.refresh_budget();
        limits
    }
}

impl PerformanceLimits {
    pub fn conservative() -> (r: Self)
        ensures
            r.max_nodes == 100000,
            r.max_edges == 500000,
            r.max_memory_mb == 256,
            r.max_depth == 100,
            r.max_file_size_mb == 10,
            r.max_object_size_mb == 5,
            r.max_stream_decode_ratio == 50,
            r.max_concurrent_parsers == 2,
            r.enable_timeout_checks,
            r.enable_memory_checks,
            r.enable_recursion_checks,
            r.budget_matches(),
            r.budget.deadline is None,
    {
        let base = Self::default();
        let mut limits = Self {
            max_nodes: 100000,
            max_edges: 500000,
            max_memory_mb: 256,
            max_parse_time: duration_from_secs(60),
            max_query_time: duration_from_secs(10),
            max_depth: 100,
            max_file_size_mb: 10,
            max_object_size_mb: 5,
            max_stream_decode_ratio: 50,
            max_concurrent_parsers: 2,
            enable_timeout_checks: base.enable_timeout_checks,
            enable_memory_checks: base.enable_memory_checks,
            enable_recursion_checks: base.enable_recursion_checks,
            budget: base.budget,
        };
        limits.refresh_budget();
        limits
    }

    pub fn permissive() -> (r: Self)
        ensures
            r.max_nodes == 10000000,
            r.max_edges == 50000000,
            r.max_memory_mb == 4096,
            r.max_depth == 10000,
            r.max_file_size_mb == 1000,
            r.max_object_size_mb == 500,
            r.max_stream_decode_ratio == 200,
            r.max_concurrent_parsers == 8,
            r.enable_timeout_checks,
            r.enable_memory_checks,
            r.enable_recursion_checks,
            r.budget_matches(),
            r.budget.deadline is None,
    {
        let base = Self::default();
        let mut limits = Self {
            max_nodes: 10000000,
            max_edges: 50000000,
            max_memory_mb: 4096,
            max_parse_time: duration_from_secs(1800),
            max_query_time: duration_from_secs(120),
            max_depth: 10000,
            max_file_size_mb: 1000,
            max_object_size_mb: 500,
            max_stream_decode_ratio: 200,
            max_concurrent_parsers: 8,
            enable_timeout_checks: base.enable_timeout_checks,
            enable_memory_checks: base.enable_memory_checks,
            enable_recursion_checks: base.enable_recursion_checks,
            budget: base.budget,
        };
        limits.refresh_budget();
        limits
    }

    /// Rebuilds the budget from the integer limits, with fresh counters,
    /// keeping the deadline and the cancellation token.
    pub fn refresh_budget(&mut self)
        ensures
            final(self).budget_matches(),
            final(self).budget.deadline == old(self).budget.deadline,
            final(self).max_nodes == old(self).max_nodes,
            final(self).max_edges == old(self).max_edges,
            final(self).max_memory_mb == old(self).max_memory_mb,
            final(self).max_parse_time == old(self).max_parse_time,
            final(self).max_query_time == old(self).max_query_time,
            final(self).max_depth == old(self).max_depth,
            final(self).max_file_size_mb == old(self).max_file_size_mb,
            final(self).max_object_size_mb == old(self).max_object_size_mb,
            final(self).max_stream_decode_ratio == old(self).max_stream_decode_ratio,
            final(self).max_concurrent_parsers == old(self).max_concurrent_parsers,
            final(self).enable_timeout_checks == old(self).enable_timeout_checks,
            final(self).enable_memory_checks == old(self).enable_memory_checks,
            final(self).enable_recursion_checks == old(self).enable_recursion_checks,
    {
        let deadline = self.budget.deadline;
        let cancellation = self.budget.cancellation.clone();
        let mut budget = ResourceBudget::new(
            mb_to_bytes_u64(self.max_file_size_mb),
            mb_to_bytes_u64(self.max_memory_mb),
            mb_to_bytes_u64(self.max_object_size_mb),
            self.max_stream_decode_ratio as u64,
            self.max_nodes,
            self.max_nodes,
            self.max_edges,
            self.max_depth,
        );
        budget.deadline = deadline;
        budget.cancellation = cancellation;
        self.budget = budget;
    }
}

#[derive(Debug, Clone)]
pub enum PerformanceViolation {
    TooManyNodes(usize, usize),
    TooManyEdges(usize, usize),
    ExcessiveMemory(usize, usize),
    Timeout(Duration, Duration),
    ExcessiveDepth(usize, usize),
    FileTooLarge(usize, usize),
    ObjectTooLarge(usize, usize),
    TooManyConcurrentParsers(usize, usize),
}

/// The next memory total when `bytes` more are allocated, or `None` when it
/// would pass `limit`.
pub open spec fn memory_step(current: usize, bytes: usize, limit: usize) -> Option<usize> {
    let next = if current + bytes > usize::MAX { usize::MAX as int } else { current + bytes };
    if next > limit { None } else { Some(next as usize) }
}

fn next_memory_value(current: usize, bytes: usize, limit: usize) -> (r: Option<usize>)
    ensures
        r == memory_step(current, bytes, limit),
{
    let next = current.saturating_add(bytes);
    if next > limit {
        None
    } else {
        Some(next)
    }
}

/// Calls `AtomicUsize::fetch_update` with `next_memory_value` as the
/// closure; `Ok(previous)` when the closure accepted the value it replaced,
/// `Err(observed)` when it refused the last value it saw.
#[verifier::external_body]
fn reserve_memory(counter: &AtomicUsize, bytes: usize, limit: usize) -> (r: Result<usize, usize>)
    ensures
        r matches Ok(prev) ==> memory_step(prev, bytes, limit) is Some,
        r matches Err(cur) ==> memory_step(cur, bytes, limit) is None,
{
    counter.fetch_update(
        std::sync::atomic::Ordering::AcqRel,
        std::sync::atomic::Ordering::Acquire,
        |current| next_memory_value(current, bytes, limit),
    )
}

fn released_value(current: usize, bytes: usize) -> (r: Option<usize>)
    ensures
        r == Some((if current >= bytes { current - bytes } else { 0 }) as usize),
{
    Some(current.saturating_sub(bytes))
}

/// Calls `AtomicUsize::fetch_update` with `released_value` as the closure,
/// which always accepts; the call neither panics nor opens an invariant, and
/// the result carries no further promise.
#[verifier::external_body]
fn release_memory(counter: &AtomicUsize, bytes: usize)
    opens_invariants none
    no_unwind
{
    let _ = counter.fetch_update(
        std::sync::atomic::Ordering::AcqRel,
        std::sync::atomic::Ordering::Acquire,
        |current| released_value(current, bytes),
    );
}

#[derive(Debug)]
pub struct PerformanceGuard {
    limits: PerformanceLimits,
    start_time: Instant,
    node_count: usize,
    edge_count: usize,
    current_depth: usize,
    max_depth_reached: usize,
    memory_usage: Arc<AtomicUsize>,
    operation_name: String,
}

#[derive(Debug, Clone)]
pub struct PerformanceStats {
    pub operation_name: String,
    pub elapsed_time: Duration,
    pub node_count: usize,
    pub edge_count: usize,
    pub max_depth_reached: usize,
    pub memory_usage_mb: usize,
}

impl PerformanceGuard {
    pub closed spec fn limits_spec(&self) -> PerformanceLimits {
        self.limits
    }

    pub closed spec fn node_count_spec(&self) -> usize {
        self.node_count
    }

    pub closed spec fn edge_count_spec(&self) -> usize {
        self.edge_count
    }

    pub closed spec fn current_depth_spec(&self) -> usize {
        self.current_depth
    }

    pub closed spec fn max_depth_reached_spec(&self) -> usize {
        self.max_depth_reached
    }

    pub closed spec fn operation_name_spec(&self) -> Seq<char> {
        self.operation_name@
    }

    pub fn new(limits: PerformanceLimits, operation_name: &str) -> (r: Self)
        ensures
            r.limits_spec() == limits,
            r.node_count_spec() == 0,
            r.edge_count_spec() == 0,
            r.current_depth_spec() == 0,
            r.max_depth_reached_spec() == 0,
            r.operation_name_spec() == operation_name@,
    {
        Self {
            limits,
            start_time: instant_now(),
            node_count: 0,
            edge_count: 0,
            current_depth: 0,
            max_depth_reached: 0,
            memory_usage: Arc::new(AtomicUsize::new(0)),
            operation_name: String::from_str(operation_name),
        }
    }

    /// Refuses a file of more than `max_file_size_mb` megabytes, reporting
    /// its size in megabytes rounded up.
    pub fn check_file_size(&self, size_bytes: usize) -> (r: Result<(), PerformanceViolation>)
        ensures
            size_bytes <= mb_bytes_usize(self.limits_spec().max_file_size_mb as nat) <==> r is Ok,
            r matches Err(e) ==> e matches PerformanceViolation::FileTooLarge(mb, max)
                && mb == mb_ceil(size_bytes as nat) && max == self.limits_spec().max_file_size_mb,
    {
        let size_mb = bytes_to_mb_ceil(size_bytes);
        if size_bytes > mb_to_bytes_usize(self.limits.max_file_size_mb) {
            return Err(PerformanceViolation::FileTooLarge(size_mb, self.limits.max_file_size_mb));
        }
        Ok(())
    }

    /// Refuses an object of more than `max_object_size_mb` megabytes.
    pub fn check_object_size(&self, size_bytes: usize) -> (r: Result<(), PerformanceViolation>)
        ensures
            size_bytes <= mb_bytes_usize(self.limits_spec().max_object_size_mb as nat) <==> r is Ok,
            r matches Err(e) ==> e matches PerformanceViolation::ObjectTooLarge(mb, max)
                && mb == mb_ceil(size_bytes as nat) && max == self.limits_spec().max_object_size_mb,
    {
        let size_mb = bytes_to_mb_ceil(size_bytes);
        if size_bytes > mb_to_bytes_usize(self.limits.max_object_size_mb) {
            return Err(PerformanceViolation::ObjectTooLarge(size_mb, self.limits.max_object_size_mb));
        }
        Ok(())
    }

    pub fn check_nodes(&self, count: usize) -> (r: Result<(), PerformanceViolation>)
        ensures
            count <= self.limits_spec().max_nodes <==> r is Ok,
            r matches Err(e) ==> e matches PerformanceViolation::TooManyNodes(c, max)
                && c == count && max == self.limits_spec().max_nodes,
    {
        if count > self.limits.max_nodes {
            return Err(PerformanceViolation::TooManyNodes(count, self.limits.max_nodes));
        }
        Ok(())
    }

    pub fn check_edges(&self, count: usize) -> (r: Result<(), PerformanceViolation>)
        ensures
            count <= self.limits_spec().max_edges <==> r is Ok,
            r matches Err(e) ==> e matches PerformanceViolation::TooManyEdges(c, max)
                && c == count && max == self.limits_spec().max_edges,
    {
        if count > self.limits.max_edges {
            return Err(PerformanceViolation::TooManyEdges(count, self.limits.max_edges));
        }
        Ok(())
    }

    /// Refuses when more than `max_duration` has passed since the guard was
    /// made; always succeeds when timeout checks are disabled.
    pub fn check_timeout(&self, max_duration: Duration) -> (r: Result<(), PerformanceViolation>)
        ensures
            !self.limits_spec().enable_timeout_checks ==> r is Ok,
            r matches Err(e) ==> e matches PerformanceViolation::Timeout(_, max) && max == max_duration,
    {
        if !self.limits.enable_timeout_checks {
            return Ok(());
        }
        let elapsed = instant_elapsed(&self.start_time);
        if duration_exceeds(&elapsed, &max_duration) {
            return Err(PerformanceViolation::Timeout(elapsed, max_duration));
        }
        Ok(())
    }

    pub fn check_parse_timeout(&self) -> (r: Result<(), PerformanceViolation>)
        ensures
            !self.limits_spec().enable_timeout_checks ==> r is Ok,
            r matches Err(e) ==> e matches PerformanceViolation::Timeout(_, max)
                && max == self.limits_spec().max_parse_time,
    {
        self.check_timeout(self.limits.max_parse_time)
    }

    pub fn check_query_timeout(&self) -> (r: Result<(), PerformanceViolation>)
        ensures
            !self.limits_spec().enable_timeout_checks ==> r is Ok,
            r matches Err(e) ==> e matches PerformanceViolation::Timeout(_, max)
                && max == self.limits_spec().max_query_time,
    {
        self.check_timeout(self.limits.max_query_time)
    }

    /// Enters one more level of recursion.  The returned guard leaves that
    /// level again when it is dropped.  With recursion checks disabled the
    /// depth is not tracked and the guard reports depth 0.  The depth count
    /// stops at `usize::MAX`.  A refused entry leaves the count raised, as
    /// the guard that would lower it again is never made.
    pub fn enter_recursion(&mut self) -> (r: Result<RecursionGuard<'_>, PerformanceViolation>)
        ensures
            !old(self).limits_spec().enable_recursion_checks ==> (r matches Ok(g) && g.depth_spec() == 0),
            old(self).limits_spec().enable_recursion_checks ==> {
                let d = if old(self).current_depth_spec() < usize::MAX {
                    old(self).current_depth_spec() + 1
                } else {
                    usize::MAX as int
                };
                &&& (d <= old(self).limits_spec().max_depth <==> r is Ok)
                &&& (r matches Ok(g) ==> g.depth_spec() == d)
                &&& (r matches Err(e) ==> e matches PerformanceViolation::ExcessiveDepth(c, max)
                    && c == d && max == old(self).limits_spec().max_depth)
                &&& (r is Err ==> final(self).current_depth_spec() == d)
            },
            r is Err ==> final(self).limits_spec() == old(self).limits_spec(),
    {
        if !self.limits.enable_recursion_checks {
            return Ok(RecursionGuard::new(self, 0));
        }
        self.current_depth = self.current_depth.saturating_add(1);
        if self.current_depth > self.max_depth_reached {
            self.max_depth_reached = self.current_depth;
        }
        if self.current_depth > self.limits.max_depth {
            return Err(PerformanceViolation::ExcessiveDepth(self.current_depth, self.limits.max_depth));
        }
        let depth = self.current_depth;
        Ok(RecursionGuard::new(self, depth))
    }

    /// Records an allocation of `bytes`; refused (and not recorded) when the
    /// shared total would pass `max_memory_mb` megabytes.
    pub fn track_memory_allocation(&self, bytes: usize) -> (r: Result<(), PerformanceViolation>)
        ensures
            !self.limits_spec().enable_memory_checks ==> r is Ok,
            self.limits_spec().enable_memory_checks && bytes > mb_bytes_usize(
                self.limits_spec().max_memory_mb as nat,
            ) ==> r is Err,
            r matches Err(e) ==> e matches PerformanceViolation::ExcessiveMemory(_, max)
                && max == self.limits_spec().max_memory_mb,
    {
        if !self.limits.enable_memory_checks {
            return Ok(());
        }
        let limit = mb_to_bytes_usize(self.limits.max_memory_mb);
        match reserve_memory(&self.memory_usage, bytes, limit) {
            Ok(_) => Ok(()),
            Err(current) => {
                let next = current.saturating_add(bytes);
                Err(PerformanceViolation::ExcessiveMemory(bytes_to_mb_ceil(next), self.limits.max_memory_mb))
            },
        }
    }

    pub fn track_memory_deallocation(&self, bytes: usize) {
        release_memory(&self.memory_usage, bytes);
    }

    /// Counts one more node; refused when the count passes `max_nodes`.
    pub fn increment_nodes(&mut self) -> (r: Result<(), PerformanceViolation>)
        requires
            old(self).node_count_spec() < usize::MAX,
        ensures
            final(self).node_count_spec() == old(self).node_count_spec() + 1,
            final(self).limits_spec() == old(self).limits_spec(),
            final(self).edge_count_spec() == old(self).edge_count_spec(),
            final(self).current_depth_spec() == old(self).current_depth_spec(),
            old(self).node_count_spec() + 1 <= old(self).limits_spec().max_nodes <==> r is Ok,
            r matches Err(e) ==> e == PerformanceViolation::TooManyNodes(
                (old(self).node_count_spec() + 1) as usize,
                old(self).limits_spec().max_nodes,
            ),
    {
        self.node_count = self.node_count + 1;
        self.check_nodes(self.node_count)
    }

    /// Counts one more edge; refused when the count passes `max_edges`.
    pub fn increment_edges(&mut self) -> (r: Result<(), PerformanceViolation>)
        requires
            old(self).edge_count_spec() < usize::MAX,
        ensures
            final(self).edge_count_spec() == old(self).edge_count_spec() + 1,
            final(self).limits_spec() == old(self).limits_spec(),
            final(self).node_count_spec() == old(self).node_count_spec(),
            final(self).current_depth_spec() == old(self).current_depth_spec(),
            old(self).edge_count_spec() + 1 <= old(self).limits_spec().max_edges <==> r is Ok,
            r matches Err(e) ==> e == PerformanceViolation::TooManyEdges(
                (old(self).edge_count_spec() + 1) as usize,
                old(self).limits_spec().max_edges,
            ),
    {
        self.edge_count = self.edge_count + 1;
        self.check_edges(self.edge_count)
    }

    pub fn get_stats(&self) -> (r: PerformanceStats)
        ensures
            r.operation_name@ == self.operation_name_spec(),
            r.node_count == self.node_count_spec(),
            r.edge_count == self.edge_count_spec(),
            r.max_depth_reached == self.max_depth_reached_spec(),
    {
        let usage = self.memory_usage.load(std::sync::atomic::Ordering::Acquire);
        PerformanceStats {
            operation_name: self.operation_name.clone(),
            elapsed_time: instant_elapsed(&self.start_time),
            node_count: self.node_count,
            edge_count: self.edge_count,
            max_depth_reached: self.max_depth_reached,
            memory_usage_mb: usage / MEGABYTE,
        }
    }

    fn exit_recursion(&mut self)
        ensures
            final(self).current_depth_spec() == (if old(self).current_depth_spec() > 0 {
                old(self).current_depth_spec() - 1
            } else {
                0
            }),
            final(self).limits_spec() == old(self).limits_spec(),
            final(self).node_count_spec() == old(self).node_count_spec(),
            final(self).edge_count_spec() == old(self).edge_count_spec(),
    {
        if self.current_depth > 0 {
            self.current_depth = self.current_depth - 1;
        }
    }
}

/// One level of recursion entered on a `PerformanceGuard`; dropping it
/// leaves the level.
pub struct RecursionGuard<'a> {
    guard: &'a mut PerformanceGuard,
    depth: usize,
}

impl<'a> RecursionGuard<'a> {
    pub closed spec fn depth_spec(&self) -> usize {
        self.depth
    }

    fn new(guard: &'a mut PerformanceGuard, depth: usize) -> (r: Self)
        ensures
            r.depth_spec() == depth,
    {
        Self { guard, depth }
    }

    pub fn depth(&self) -> (r: usize)
        ensures
            r == self.depth_spec(),
    {
        self.depth
    }
}

impl<'a> Drop for RecursionGuard<'a> {
    fn drop(&mut self)
        opens_invariants none
        no_unwind
    {
        if self.guard.current_depth > 0 {
            self.guard.current_depth = self.guard.current_depth - 1;
        }
    }
}

/// The next number of active parsers when one more starts, or `None` when
/// `max` are already active.
pub open spec fn slot_step(active: usize, max: usize) -> Option<usize> {
    if active >= max { None } else { Some((active + 1) as usize) }
}

fn next_slot_value(active: usize, max: usize) -> (r: Option<usize>)
    ensures
        r == slot_step(active, max),
{
    if active >= max {
        None
    } else {
        Some(active + 1)
    }
}

/// Calls `AtomicUsize::fetch_update` with `next_slot_value` as the closure.
#[verifier::external_body]
fn reserve_slot(active: &AtomicUsize, max: usize) -> (r: Result<usize, usize>)
    ensures
        r matches Ok(prev) ==> slot_step(prev, max) is Some,
        r matches Err(cur) ==> slot_step(cur, max) is None,
{
    active.fetch_update(
        std::sync::atomic::Ordering::AcqRel,
        std::sync::atomic::Ordering::Acquire,
        |current| next_slot_value(current, max),
    )
}

pub struct ConcurrencyGuard {
    limits: PerformanceLimits,
    active_parsers: Arc<AtomicUsize>,
}

impl ConcurrencyGuard {
    pub closed spec fn limits_spec(&self) -> PerformanceLimits {
        self.limits
    }

    pub fn new(limits: PerformanceLimits) -> (r: Self)
        ensures
            r.limits_spec() == limits,
    {
        Self { limits, active_parsers: Arc::new(AtomicUsize::new(0)) }
    }

    /// Takes one of the `max_concurrent_parsers` slots; refused when all are
    /// taken, reporting how many were active.
    pub fn acquire_parser_slot(&self) -> (r: Result<ParserSlot, PerformanceViolation>)
        ensures
            self.limits_spec().max_concurrent_parsers == 0 ==> r is Err,
            r matches Err(e) ==> e matches PerformanceViolation::TooManyConcurrentParsers(active, max)
                && max == self.limits_spec().max_concurrent_parsers && active >= max,
    {
        let max = self.limits.max_concurrent_parsers;
        match reserve_slot(&self.active_parsers, max) {
            Ok(_) => Ok(ParserSlot { active_parsers: self.active_parsers.clone() }),
            Err(active) => Err(PerformanceViolation::TooManyConcurrentParsers(active, max)),
        }
    }
}

/// A taken parser slot; dropping it gives the slot back.
pub struct ParserSlot {
    active_parsers: Arc<AtomicUsize>,
}

impl Drop for ParserSlot {
    fn drop(&mut self)
        opens_invariants none
        no_unwind
    {
        release_memory(&self.active_parsers, 1);
    }
}

} // verus!
