//! Logging decisions: verbosity filters, which events each log accepts,
//! the deduplicating JSON log writer, the TUI log ring, and the run report
//! values (timestamps and derived settings).

use vstd::prelude::*;
use crate::p2p::{p2p_limits, P2pLimits};
use crate::text::{chars_of, decimal_chars, decimal_string, hex_digit_char, push_char, string_from_chars, str_eq};
use vstd::string::StringSliceAdditionalSpecFns;
use vstd::utf8::{decode_utf8, encode_utf8, is_char_boundary};

verus! {

/// Verbosity levels, from the least to the most verbose.
#[derive(Debug, Clone, Copy, PartialEq, Eq, Structural)]
pub enum LogLevel {
    Error,
    Warn,
    Info,
    Debug,
    Trace,
}

/// The rank of a level: more verbose levels rank higher.
pub open spec fn level_rank(l: LogLevel) -> int {
    match l {
        LogLevel::Error => 0,
        LogLevel::Warn => 1,
        LogLevel::Info => 2,
        LogLevel::Debug => 3,
        LogLevel::Trace => 4,
    }
}

fn rank(l: LogLevel) -> (res: u8)
    ensures
        res == level_rank(l),
{
    match l {
        LogLevel::Error => 0,
        LogLevel::Warn => 1,
        LogLevel::Info => 2,
        LogLevel::Debug => 3,
        LogLevel::Trace => 4,
    }
}

/// The console filter for a verbosity: the global level and the level of
/// the node's own events, as `"{global},shinode={local}"`.
pub open spec fn console_filter_levels(verbosity: u8) -> (Seq<char>, Seq<char>) {
    if verbosity == 0 {
        ("warn"@, "info"@)
    } else if verbosity == 1 {
        ("warn"@, "debug"@)
    } else if verbosity == 2 {
        ("info"@, "trace"@)
    } else {
        ("debug"@, "trace"@)
    }
}

/// The console log filter for a verbosity (see `console_filter_levels`).
pub fn console_filter(verbosity: u8) -> (res: String)
    ensures
        res@ == console_filter_levels(verbosity).0 + ",shinode="@ + console_filter_levels(verbosity).1,
{
    let (global, local) = if verbosity == 0 {
        ("warn", "info")
    } else if verbosity == 1 {
        ("warn", "debug")
    } else if verbosity == 2 {
        ("info", "trace")
    } else {
        ("debug", "trace")
    };
    let mut chars = chars_of(global);
    let mid = chars_of(",shinode=");
    let tail = chars_of(local);
    chars.extend_from_slice(mid.as_slice());
    chars.extend_from_slice(tail.as_slice());
    string_from_chars(chars.as_slice())
}

/// The most verbose level the TUI shows for a verbosity.
pub fn tui_min_level(verbosity: u8) -> (res: LogLevel)
    ensures
        res == if verbosity == 0 { LogLevel::Info } else if verbosity == 1 { LogLevel::Debug } else { LogLevel::Trace },
{
    if verbosity == 0 {
        LogLevel::Info
    } else if verbosity == 1 {
        LogLevel::Debug
    } else {
        LogLevel::Trace
    }
}

/// Whether the TUI shows an event of `level`: not more verbose than
/// `min_level`, and warnings only when `show_warn`.
pub fn tui_accepts(level: LogLevel, min_level: LogLevel, show_warn: bool) -> (res: bool)
    ensures
        res == (level_rank(level) <= level_rank(min_level) && (level != LogLevel::Warn || show_warn)),
{
    if rank(level) > rank(min_level) {
        return false;
    }
    if level == LogLevel::Warn && !show_warn {
        return false;
    }
    true
}

/// Filter mode for JSON log layers.
#[derive(Debug, Clone, Copy, PartialEq, Eq, Structural)]
pub enum JsonLogFilter {
    /// Accept all events.
    All,
    /// Accept only events where message == "resources".
    ResourcesOnly,
    /// Accept all events except where message == "resources".
    ExcludeResources,
}

impl JsonLogFilter {
    /// Whether an event with `message` passes the filter.
    pub fn accepts(&self, message: Option<&str>) -> (res: bool)
        ensures
            ({
                let is_resources = message matches Some(m) && m@ == "resources"@;
                res == match self {
                    JsonLogFilter::All => true,
                    JsonLogFilter::ResourcesOnly => is_resources,
                    JsonLogFilter::ExcludeResources => !is_resources,
                }
            }),
    {
        let is_resources = match message {
            Some(m) => str_eq(m, "resources"),
            None => false,
        };
        match self {
            JsonLogFilter::All => true,
            JsonLogFilter::ResourcesOnly => is_resources,
            JsonLogFilter::ExcludeResources => !is_resources,
        }
    }
}

/// A structured log record: its fields are kept as names and JSON texts.
#[derive(Debug, Clone, PartialEq, Eq)]
pub struct LogRecord {
    pub t_ms: u64,
    pub level: String,
    pub target: String,
    pub file: Option<String>,
    pub line: Option<u32>,
    pub message: Option<String>,
    pub fields: Vec<(String, String)>,
    pub count: Option<u64>,
}

/// Flush the JSON log after this many records.
pub const FLUSH_COUNT: usize = 4096;

/// What the JSON log writer does next.
#[derive(Debug, Clone, Copy, PartialEq, Eq)]
pub enum WriterAction {
    /// Write the held record, with `count` repeats noted when it is
    /// `Some`, and stop holding it.
    WriteHeld { count: Option<u64> },
    /// Hold the record just received.
    HoldNew,
    /// Restart the deduplication window.
    ResetDedupTimer,
    /// Flush the file.
    FlushFile,
    /// Restart the flush interval.
    ResetFlushTimer,
}

/// State of the JSON log writer: the key of the record held back to
/// collapse identical ones that follow, how many were collapsed, and how
/// many records were written since the last flush.
#[derive(Debug, Clone, Copy, PartialEq, Eq)]
pub struct DedupWriter {
    pub prev_key: Option<u64>,
    pub holding: bool,
    pub dup_count: u64,
    pub since_flush: usize,
}

/// The action writing the held record takes, if one is held.
pub open spec fn write_held(holding: bool, dup_count: u64) -> Seq<WriterAction> {
    if holding {
        seq![WriterAction::WriteHeld { count: if dup_count > 0 { Some((dup_count + 1) as u64) } else { None } }]
    } else {
        Seq::empty()
    }
}

impl DedupWriter {
    /// A key is remembered only while its record is held.
    pub open spec fn wf(&self) -> bool {
        self.prev_key is Some ==> self.holding
    }

    pub fn new() -> (res: DedupWriter)
        ensures
            res.wf(),
            res.prev_key is None && !res.holding && res.dup_count == 0 && res.since_flush == 0,
    {
        DedupWriter { prev_key: None, holding: false, dup_count: 0, since_flush: 0 }
    }

    fn flush_held(&mut self, actions: &mut Vec<WriterAction>)
        requires
            old(self).dup_count < u64::MAX,
        ensures
            final(actions)@ == old(actions)@ + write_held(old(self).holding, old(self).dup_count),
            !final(self).holding,
            final(self).dup_count == if old(self).holding { 0 } else { old(self).dup_count },
            final(self).since_flush == if old(self).holding {
                if old(self).since_flush == usize::MAX { usize::MAX } else { (old(self).since_flush + 1) as usize }
            } else {
                old(self).since_flush
            },
            final(self).prev_key == old(self).prev_key,
    {
        if self.holding {
            let count = if self.dup_count > 0 { Some(self.dup_count + 1) } else { None };
            actions.push(WriterAction::WriteHeld { count });
            self.since_flush = self.since_flush.saturating_add(1);
            self.dup_count = 0;
            self.holding = false;
        }
        proof {
            assert(final(actions)@ =~= old(actions)@ + write_held(old(self).holding, old(self).dup_count));
        }
    }

    /// A record with dedup key `key` arrived. `in_window` tells whether the
    /// deduplication window (one second since the held record arrived) is
    /// still open, `interval_elapsed` whether the flush interval has
    /// passed. A record identical to the held one within the window is
    /// only counted; otherwise the held record is written and the new one
    /// held. Every `FLUSH_COUNT` records, or when the interval has passed,
    /// the held record is written and the file flushed.
    pub fn on_record(&mut self, key: u64, in_window: bool, interval_elapsed: bool) -> (res: Vec<WriterAction>)
        requires
            old(self).wf(),
            old(self).dup_count < u64::MAX - 1,
        ensures
            final(self).wf(),
            ({
                let dup = old(self).prev_key == Some(key) && in_window;
                let first: Seq<WriterAction> = if dup {
                    Seq::empty()
                } else {
                    write_held(old(self).holding, old(self).dup_count) + seq![WriterAction::HoldNew, WriterAction::ResetDedupTimer]
                };
                let since = if dup || !old(self).holding {
                    old(self).since_flush as int
                } else {
                    if old(self).since_flush == usize::MAX { usize::MAX as int } else { old(self).since_flush + 1 }
                };
                let count_after = if dup { old(self).dup_count + 1 } else { 0 };
                let flush = since >= FLUSH_COUNT || interval_elapsed;
                &&& flush ==> res@ == first + write_held(true, count_after as u64) + seq![WriterAction::FlushFile,
                    WriterAction::ResetFlushTimer]
                    && final(self).prev_key is None && !final(self).holding && final(self).since_flush == 0
                    && final(self).dup_count == 0
                &&& !flush ==> res@ == first && final(self).prev_key == Some(key) && final(self).holding
                    && final(self).since_flush == since && final(self).dup_count == count_after
            }),
    {
        let mut actions: Vec<WriterAction> = Vec::new();
        if self.prev_key == Some(key) && in_window {
            self.dup_count = self.dup_count + 1;
        } else {
            self.flush_held(&mut actions);
            self.prev_key = Some(key);
            self.holding = true;
            self.dup_count = 0;
            actions.push(WriterAction::HoldNew);
            actions.push(WriterAction::ResetDedupTimer);
        }
        if self.since_flush >= FLUSH_COUNT || interval_elapsed {
            self.flush_held(&mut actions);
            self.prev_key = None;
            actions.push(WriterAction::FlushFile);
            self.since_flush = 0;
            actions.push(WriterAction::ResetFlushTimer);
        }
        actions
    }
}


impl DedupWriter {
    /// No record arrived for a while: the held record is written and, when
    /// records were written since the last flush, the file is flushed.
    pub fn on_timeout(&mut self) -> (res: Vec<WriterAction>)
        requires
            old(self).wf(),
            old(self).dup_count < u64::MAX,
        ensures
            final(self).wf(),
            final(self).prev_key is None,
            !final(self).holding,
            ({
                let since = if old(self).holding {
                    if old(self).since_flush == usize::MAX { usize::MAX as int } else { old(self).since_flush + 1 }
                } else {
                    old(self).since_flush as int
                };
                &&& since > 0 ==> res@ == write_held(old(self).holding, old(self).dup_count) + seq![WriterAction::FlushFile,
                    WriterAction::ResetFlushTimer] && final(self).since_flush == 0
                &&& since == 0 ==> res@ == write_held(old(self).holding, old(self).dup_count) && final(self).since_flush == 0
            }),
    {
        let mut actions: Vec<WriterAction> = Vec::new();
        self.flush_held(&mut actions);
        self.prev_key = None;
        if self.since_flush > 0 {
            actions.push(WriterAction::FlushFile);
            self.since_flush = 0;
            actions.push(WriterAction::ResetFlushTimer);
        }
        actions
    }

    /// The sender went away: the held record is written and the file
    /// flushed one last time.
    pub fn on_disconnect(&mut self) -> (res: Vec<WriterAction>)
        requires
            old(self).wf(),
            old(self).dup_count < u64::MAX,
        ensures
            res@ == write_held(old(self).holding, old(self).dup_count) + seq![WriterAction::FlushFile],
            !final(self).holding,
    {
        let mut actions: Vec<WriterAction> = Vec::new();
        self.flush_held(&mut actions);
        actions.push(WriterAction::FlushFile);
        actions
    }
}

/// Entries the TUI log keeps.
pub const TUI_LOG_BUFFER_SIZE: usize = 100;

/// A single log entry for TUI display.
#[derive(Debug, Clone, PartialEq, Eq)]
pub struct TuiLogEntry {
    pub level: LogLevel,
    pub message: String,
    /// Unix timestamp in milliseconds.
    pub timestamp_ms: u64,
}

/// The last `TUI_LOG_BUFFER_SIZE` log entries, oldest first.
#[derive(Debug)]
pub struct TuiLogRing {
    entries: Vec<TuiLogEntry>,
}

impl TuiLogRing {
    /// The entries held, oldest first.
    pub closed spec fn entries_view(&self) -> Seq<TuiLogEntry> {
        self.entries@
    }

    pub fn new() -> (res: TuiLogRing)
        ensures
            res.entries_view().len() == 0,
    {
        TuiLogRing { entries: Vec::new() }
    }

    /// Adds an entry, dropping the oldest when the ring is full.
    pub fn push(&mut self, entry: TuiLogEntry)
        ensures
            final(self).entries_view() == if old(self).entries_view().len() >= TUI_LOG_BUFFER_SIZE {
                old(self).entries_view().drop_first().push(entry)
            } else {
                old(self).entries_view().push(entry)
            },
    {
        if self.entries.len() >= TUI_LOG_BUFFER_SIZE {
            self.entries.remove(0);
            proof {
                assert(self.entries@ =~= old(self).entries@.drop_first());
            }
        }
        self.entries.push(entry);
    }

    /// Returns every entry, oldest first, and empties the ring.
    pub fn drain(&mut self) -> (res: Vec<TuiLogEntry>)
        ensures
            res@ == old(self).entries_view(),
            final(self).entries_view().len() == 0,
    {
        let mut out = Vec::new();
        std::mem::swap(&mut out, &mut self.entries);
        out
    }
}

/// Metadata about the run.
#[derive(Debug, Clone, PartialEq, Eq)]
pub struct RunMeta {
    pub timestamp_utc: String,
    pub run_id: String,
    pub run_name: String,
    pub build: BuildInfo,
    pub env: EnvInfo,
}

/// Build information.
#[derive(Debug, Clone, PartialEq, Eq)]
pub struct BuildInfo {
    pub profile: String,
    pub debug_assertions: bool,
    pub features: Vec<String>,
    pub version: String,
}

/// Environment information.
#[derive(Debug, Clone, PartialEq, Eq)]
pub struct EnvInfo {
    pub os: String,
    pub arch: String,
    pub cpu_count: usize,
    pub pid: u32,
}

/// P2P configuration limits summary.
#[derive(Debug, Clone, Copy, PartialEq, Eq)]
pub struct P2pLimitsSummary {
    pub max_outbound: usize,
    pub max_concurrent_dials: usize,
    pub peer_refill_interval_ms: u64,
    pub request_timeout_ms: u64,
    pub max_headers_per_request: usize,
    pub peer_cache_ttl_days: u64,
    pub peer_cache_max: usize,
}

/// Derived values computed from config and runtime state.
#[derive(Debug, Clone, Copy, PartialEq, Eq)]
pub struct RunDerived {
    pub range_start: u64,
    pub range_end: u64,
    pub head_at_startup: u64,
    pub safe_head: u64,
    pub rollback_window_applied: bool,
    pub worker_count: usize,
    pub p2p_limits: P2pLimitsSummary,
}

/// Summary of events log file.
#[derive(Debug, Clone, PartialEq, Eq)]
pub struct EventsSummary {
    pub total_events: usize,
    pub dropped_events: u64,
    pub path: String,
}

/// Summary of JSON logs file.
#[derive(Debug, Clone, PartialEq, Eq)]
pub struct LogsSummary {
    pub total_events: usize,
    pub dropped_events: u64,
    pub path: String,
}

/// The derived values of a run report: the range, the head at startup,
/// the safe head (head minus rollback window, not below 0), whether a
/// rollback window applies, the worker count (the available parallelism,
/// 4 when unknown, at least 1) and the network limits.
pub fn run_derived(range_start: u64, range_end: u64, head_at_startup: u64, rollback_window: u64, parallelism: Option<usize>)
    -> (res: RunDerived)
    ensures
        res.range_start == range_start,
        res.range_end == range_end,
        res.head_at_startup == head_at_startup,
        res.safe_head == crate::cli::safe_head(head_at_startup, rollback_window),
        res.rollback_window_applied == (rollback_window > 0),
        res.worker_count == match parallelism { Some(p) => if p >= 1 { p } else { 1 }, None => 4 },
        res.p2p_limits.max_outbound == crate::p2p::MAX_OUTBOUND,
        res.p2p_limits.max_concurrent_dials == crate::p2p::MAX_CONCURRENT_DIALS,
        res.p2p_limits.peer_refill_interval_ms == crate::p2p::PEER_REFILL_INTERVAL_MS,
        res.p2p_limits.request_timeout_ms == crate::p2p::REQUEST_TIMEOUT_MS,
        res.p2p_limits.max_headers_per_request == crate::p2p::MAX_HEADERS_PER_REQUEST,
        res.p2p_limits.peer_cache_ttl_days == crate::p2p::PEER_CACHE_TTL_DAYS,
        res.p2p_limits.peer_cache_max == crate::p2p::PEER_CACHE_MAX,
{
    let limits: P2pLimits = p2p_limits();
    let workers = match parallelism {
        Some(p) => if p >= 1 { p } else { 1 },
        None => 4,
    };
    RunDerived {
        range_start,
        range_end,
        head_at_startup,
        safe_head: head_at_startup.saturating_sub(rollback_window),
        rollback_window_applied: rollback_window > 0,
        worker_count: workers,
        p2p_limits: P2pLimitsSummary {
            max_outbound: limits.max_outbound,
            max_concurrent_dials: limits.max_concurrent_dials,
            peer_refill_interval_ms: limits.peer_refill_interval_ms,
            request_timeout_ms: limits.request_timeout_ms,
            max_headers_per_request: limits.max_headers_per_request,
            peer_cache_ttl_days: limits.peer_cache_ttl_days,
            peer_cache_max: limits.peer_cache_max,
        },
    }
}

/// The civil date (year, month, day) of a day counted from 1970-01-01
/// (day 0), by the proleptic Gregorian calendar: eras of 146097 days,
/// years starting in March.
pub open spec fn civil_from_days_spec(days: int) -> (int, int, int) {
    let z = days + 719468;
    let era = z / 146097;
    let doe = z - era * 146097;
    let yoe = (doe - doe / 1460 + doe / 36524 - doe / 146096) / 365;
    let y = yoe + era * 400;
    let doy = doe - (365 * yoe + yoe / 4 - yoe / 100);
    let mp = (5 * doy + 2) / 153;
    let d = doy - (153 * mp + 2) / 5 + 1;
    let m = if mp < 10 { mp + 3 } else { mp - 9 };
    (if m <= 2 { y + 1 } else { y }, m, d)
}

/// The civil date of day `days` (see `civil_from_days_spec`).
#[verifier::spinoff_prover]
#[verifier::rlimit(40)]
pub fn civil_from_days(days: i64) -> (res: (i64, i64, i64))
    requires
        0 <= days <= 106751991167300,
    ensures
        (res.0 as int, res.1 as int, res.2 as int) == civil_from_days_spec(days as int),
        1 <= res.1 <= 12,
        1 <= res.2 <= 31,
        res.0 >= 1970,
{
    let z = days + 719468;
    let era = z / 146097;
    let doe = z - era * 146097;
    let yoe = (doe - doe / 1460 + doe / 36524 - doe / 146096) / 365;
    let y = yoe + era * 400;
    let doy = doe - (365 * yoe + yoe / 4 - yoe / 100);
    let mp = (5 * doy + 2) / 153;
    let d = doy - (153 * mp + 2) / 5 + 1;
    let m = if mp < 10 { mp + 3 } else { mp - 9 };
    let year = if m <= 2 { y + 1 } else { y };
    (year, m, d)
}


/// The year of an era (0 to 399, years starting in March) holding day
/// `doe` of the era.
pub open spec fn yoe_of(doe: int) -> int {
    (doe - doe / 1460 + doe / 36524 - doe / 146096) / 365
}

/// The day of the era on which year `yoe` of the era starts.
pub open spec fn year_base(yoe: int) -> int {
    365 * yoe + yoe / 4 - yoe / 100
}

/// The day of its year (from 1 March) of day `doe` of the era.
pub open spec fn doy_of(doe: int) -> int {
    doe - year_base(yoe_of(doe))
}

/// The month (0 for March to 11 for February) of day `doy` of a year.
pub open spec fn mp_of(doy: int) -> int {
    (5 * doy + 2) / 153
}

/// The day of the month of day `doy` of a year.
pub open spec fn dom_of(doy: int) -> int {
    doy - (153 * mp_of(doy) + 2) / 5 + 1
}

proof fn lemma_year_of_era(doe: int)
    requires
        0 <= doe <= 146096,
    ensures
        0 <= yoe_of(doe) <= 399,
        0 <= doy_of(doe) <= 365,
        doy_of(doe) == 365 ==> yoe_of(doe) == 399 || ((yoe_of(doe) + 1) % 4 == 0 && (yoe_of(doe) + 1) % 100 != 0),
{
    assert(0 <= yoe_of(doe) <= 399) by (nonlinear_arith) requires 0 <= doe <= 146096;
    assert(0 <= doy_of(doe) <= 365) by (nonlinear_arith) requires 0 <= doe <= 146096, 0 <= yoe_of(doe) <= 399;
}

proof fn lemma_year_step(doe: int)
    requires
        0 <= doe < 146096,
    ensures
        (yoe_of(doe + 1) == yoe_of(doe) && doy_of(doe + 1) == doy_of(doe) + 1)
        || (yoe_of(doe + 1) == yoe_of(doe) + 1 && doy_of(doe + 1) == 0 && doy_of(doe) >= 364),
{
    lemma_year_step_shape(doe);
    let y = yoe_of(doe);
    if yoe_of(doe + 1) == y + 1 {
        assert(doe + 1 == year_base(y + 1));
        assert(year_base(y + 1) - year_base(y) >= 365) by (nonlinear_arith) requires 0 <= y;
    }
}

#[verifier::spinoff_prover]
#[verifier::rlimit(50)]
proof fn lemma_year_step_shape(doe: int)
    requires
        0 <= doe < 146096,
    ensures
        (yoe_of(doe + 1) == yoe_of(doe) && doy_of(doe + 1) == doy_of(doe) + 1)
        || (yoe_of(doe + 1) == yoe_of(doe) + 1 && doy_of(doe + 1) == 0),
{
    assert(0 <= yoe_of(doe) <= 399) by (nonlinear_arith) requires 0 <= doe < 146096;
}

proof fn lemma_day_of_year(doy: int)
    requires
        0 <= doy <= 365,
    ensures
        0 <= mp_of(doy) <= 11,
        1 <= dom_of(doy) <= 31,
        doy >= 337 <==> mp_of(doy) == 11,
        dom_of(doy) == 31 ==> mp_of(doy) != 1 && mp_of(doy) != 3 && mp_of(doy) != 6 && mp_of(doy) != 8,
        mp_of(doy) == 11 ==> dom_of(doy) == doy - 336,
{
}

proof fn lemma_day_step(doy: int)
    requires
        0 <= doy < 365,
    ensures
        (mp_of(doy + 1) == mp_of(doy) && dom_of(doy + 1) == dom_of(doy) + 1)
        || (mp_of(doy + 1) == mp_of(doy) + 1 && dom_of(doy + 1) == 1),
{
}


/// Whether `y` is a Gregorian leap year.
pub open spec fn is_leap_year(y: int) -> bool {
    y % 4 == 0 && (y % 100 != 0 || y % 400 == 0)
}

/// The number of days of month `m` of year `y`.
pub open spec fn days_in_month(y: int, m: int) -> int {
    if m == 2 {
        if is_leap_year(y) { 29 } else { 28 }
    } else if m == 4 || m == 6 || m == 9 || m == 11 {
        30
    } else {
        31
    }
}

/// A number ordering dates (year, month 1 to 12, day 1 to 31) as they
/// come in time.
pub open spec fn date_key(t: (int, int, int)) -> int {
    t.0 * 512 + t.1 * 32 + t.2
}

proof fn lemma_civil_parts(days: int)
    requires
        0 <= days,
    ensures
        ({
            let z = days + 719468;
            let era = z / 146097;
            let doe = z - era * 146097;
            let yoe = yoe_of(doe);
            let doy = doy_of(doe);
            let mp = mp_of(doy);
            let m = if mp < 10 { mp + 3 } else { mp - 9 };
            &&& era >= 0 && 0 <= doe <= 146096
            &&& civil_from_days_spec(days) == (if m <= 2 { yoe + era * 400 + 1 } else { yoe + era * 400 }, m, dom_of(doy))
        }),
{
}

/// The civil date of a day is a valid Gregorian date.
pub proof fn lemma_civil_valid(days: int)
    requires
        0 <= days,
    ensures
        ({
            let (y, m, d) = civil_from_days_spec(days);
            1 <= m <= 12 && 1 <= d <= days_in_month(y, m) && y >= 0
        }),
{
    lemma_civil_parts(days);
    let z = days + 719468;
    let era = z / 146097;
    let doe = z - era * 146097;
    lemma_year_of_era(doe);
    let yoe = yoe_of(doe);
    let doy = doy_of(doe);
    lemma_day_of_year(doy);
    if mp_of(doy) == 11 && doy == 365 {
        let y = yoe + era * 400 + 1;
        assert(is_leap_year(y)) by (nonlinear_arith)
            requires
                y == yoe + era * 400 + 1,
                era >= 0,
                0 <= yoe <= 399,
                yoe == 399 || ((yoe + 1) % 4 == 0 && (yoe + 1) % 100 != 0),
        ;
    }
}

proof fn lemma_civil_step(days: int)
    requires
        0 <= days,
    ensures
        date_key(civil_from_days_spec(days)) < date_key(civil_from_days_spec(days + 1)),
{
    lemma_civil_parts(days);
    lemma_civil_parts(days + 1);
    let z = days + 719468;
    let era = z / 146097;
    let doe = z - era * 146097;
    let era2 = (z + 1) / 146097;
    let doe2 = z + 1 - era2 * 146097;
    lemma_year_of_era(doe);
    lemma_year_of_era(doe2);
    lemma_day_of_year(doy_of(doe));
    lemma_day_of_year(doy_of(doe2));
    if doe < 146096 {
        assert(era2 == era && doe2 == doe + 1) by (nonlinear_arith)
            requires
                era == z / 146097,
                doe == z - era * 146097,
                0 <= doe < 146096,
                era2 == (z + 1) / 146097,
                doe2 == z + 1 - era2 * 146097,
                z >= 0,
        ;
        lemma_year_step(doe);
        if yoe_of(doe2) == yoe_of(doe) {
            lemma_day_step(doy_of(doe));
        }
    } else {
        assert(era2 == era + 1 && doe2 == 0) by (nonlinear_arith)
            requires
                era == z / 146097,
                doe == z - era * 146097,
                doe == 146096,
                era2 == (z + 1) / 146097,
                doe2 == z + 1 - era2 * 146097,
                z >= 0,
        ;
        assert(yoe_of(doe) == 399 && doy_of(doe) == 365);
        assert(yoe_of(0) == 0 && doy_of(0) == 0);
    }
}

/// Later days have later dates: the civil date of a later day is later
/// (year, then month, then day).
pub proof fn lemma_civil_increasing(d1: int, d2: int)
    requires
        0 <= d1 < d2,
    ensures
        date_key(civil_from_days_spec(d1)) < date_key(civil_from_days_spec(d2)),
    decreases d2 - d1,
{
    lemma_civil_step(d2 - 1);
    if d1 < d2 - 1 {
        lemma_civil_increasing(d1, d2 - 1);
    }
}

/// The day, counted from 1970-01-01 (day 0), of the civil date `y`-`m`-`d`
/// (years starting in March, eras of 400 years).
pub open spec fn days_from_civil(y: int, m: int, d: int) -> int {
    let yy = if m <= 2 { y - 1 } else { y };
    let era = yy / 400;
    let yoe = yy - era * 400;
    let mp = if m > 2 { m - 3 } else { m + 9 };
    let doy = (153 * mp + 2) / 5 + d - 1;
    era * 146097 + year_base(yoe) + doy - 719468
}

/// `civil_from_days_spec` gives the date whose day count is `days`: it is
/// the inverse of `days_from_civil` on days from 1970-01-01 on.
pub proof fn lemma_civil_from_days_inverse(days: int)
    requires
        0 <= days,
    ensures
        ({
            let (y, m, d) = civil_from_days_spec(days);
            days_from_civil(y, m, d) == days
        }),
{
    lemma_civil_parts(days);
    let z = days + 719468;
    let era = z / 146097;
    let doe = z - era * 146097;
    lemma_year_of_era(doe);
    let yoe = yoe_of(doe);
    let doy = doy_of(doe);
    lemma_day_of_year(doy);
    let yy = yoe + era * 400;
    assert(yy / 400 == era && yy - (yy / 400) * 400 == yoe) by (nonlinear_arith)
        requires
            yy == yoe + era * 400,
            0 <= yoe < 400,
            era >= 0,
    ;
}

/// Whether year `yoe` of an era (years starting in March) has 366 days:
/// the calendar year after it is a leap year.
pub open spec fn era_year_is_long(yoe: int) -> bool {
    (yoe + 1) % 4 == 0 && ((yoe + 1) % 100 != 0 || yoe == 399)
}

proof fn lemma_year_base_gap(j: int, k: int)
    requires
        0 <= j < k <= 399,
    ensures
        year_base(k) >= year_base(j) + 365 + (if era_year_is_long(j) { 1int } else { 0int }),
{
    if k == j + 1 {
        assert(year_base(k) == year_base(j) + 365 + ((j + 1) / 4 - j / 4) - ((j + 1) / 100 - j / 100));
    } else {
        assert(k / 4 >= j / 4);
        assert(k / 100 - j / 100 <= 4);
    }
}

proof fn lemma_era_day_unique(yoe: int, doy: int)
    requires
        0 <= yoe <= 399,
        0 <= doy,
        doy < 365 || (doy == 365 && era_year_is_long(yoe)),
    ensures
        0 <= year_base(yoe) + doy <= 146096,
        yoe_of(year_base(yoe) + doy) == yoe,
        doy_of(year_base(yoe) + doy) == doy,
{
    assert(year_base(399) == 145731);
    if yoe < 399 {
        lemma_year_base_gap(yoe, 399);
    }
    let doe = year_base(yoe) + doy;
    lemma_year_of_era(doe);
    let yoe2 = yoe_of(doe);
    let doy2 = doy_of(doe);
    if yoe2 > yoe {
        lemma_year_base_gap(yoe, yoe2);
    } else if yoe2 < yoe {
        lemma_year_base_gap(yoe2, yoe);
        assert(doy2 < 365 || era_year_is_long(yoe2));
    }
}

proof fn lemma_month_day_unique(mp: int, d: int, len: int)
    requires
        0 <= mp <= 11,
        1 <= d <= len,
        len == (if mp == 11 { 29int } else if mp == 1 || mp == 3 || mp == 6 || mp == 8 { 30int } else { 31int }),
    ensures
        mp_of((153 * mp + 2) / 5 + d - 1) == mp,
        dom_of((153 * mp + 2) / 5 + d - 1) == d,
        0 <= (153 * mp + 2) / 5 + d - 1 <= 365,
        (153 * mp + 2) / 5 + d - 1 == 365 ==> mp == 11 && d == 29,
{
    if mp == 0 {} else if mp == 1 {} else if mp == 2 {} else if mp == 3 {} else if mp == 4 {} else if mp == 5 {}
    else if mp == 6 {} else if mp == 7 {} else if mp == 8 {} else if mp == 9 {} else if mp == 10 {} else {}
}

/// On dates from 1970-01-01 on, `days_from_civil` is the inverse of
/// `civil_from_days_spec`: a valid Gregorian date comes back from its day
/// count.
pub proof fn lemma_days_from_civil_inverse(y: int, m: int, d: int)
    requires
        1 <= m <= 12,
        1 <= d <= days_in_month(y, m),
        days_from_civil(y, m, d) >= 0,
    ensures
        civil_from_days_spec(days_from_civil(y, m, d)) == (y, m, d),
{
    let yy = if m <= 2 { y - 1 } else { y };
    let era = yy / 400;
    let yoe = yy - era * 400;
    let mp = if m > 2 { m - 3 } else { m + 9 };
    let doy = (153 * mp + 2) / 5 + d - 1;
    let days = days_from_civil(y, m, d);
    let len = if mp == 11 { 29int } else if mp == 1 || mp == 3 || mp == 6 || mp == 8 { 30int } else { 31int };
    lemma_month_day_unique(mp, d, len);
    if doy == 365 {
        assert(m == 2 && d == 29 && is_leap_year(y));
        assert(era_year_is_long(yoe)) by (nonlinear_arith)
            requires
                y == yy + 1,
                yoe == yy - era * 400,
                0 <= yoe <= 399,
                y % 4 == 0 && (y % 100 != 0 || y % 400 == 0),
        ;
    }
    lemma_era_day_unique(yoe, doy);
    let doe = year_base(yoe) + doy;
    assert(days + 719468 == era * 146097 + doe);
    assert(era >= 0);
    lemma_civil_parts(days);
    let z = days + 719468;
    assert(z / 146097 == era && z - (z / 146097) * 146097 == doe) by (nonlinear_arith)
        requires
            z == era * 146097 + doe,
            0 <= doe <= 146096,
            era >= 0,
    ;
}

/// The fields of the UTC timestamp of `secs` seconds after the Unix epoch:
/// year, month, day, hour, minute, second.
pub open spec fn timestamp_fields(secs: int) -> (int, int, int, int, int, int) {
    let rem = secs % 86400;
    let (y, m, d) = civil_from_days_spec(secs / 86400);
    (y, m, d, rem / 3600, (rem % 3600) / 60, rem % 60)
}

/// Whether timestamp fields `a` come strictly before `b`, field by field.
pub open spec fn fields_before(a: (int, int, int, int, int, int), b: (int, int, int, int, int, int)) -> bool {
    ||| a.0 < b.0
    ||| a.0 == b.0 && a.1 < b.1
    ||| a.0 == b.0 && a.1 == b.1 && a.2 < b.2
    ||| a.0 == b.0 && a.1 == b.1 && a.2 == b.2 && a.3 < b.3
    ||| a.0 == b.0 && a.1 == b.1 && a.2 == b.2 && a.3 == b.3 && a.4 < b.4
    ||| a.0 == b.0 && a.1 == b.1 && a.2 == b.2 && a.3 == b.3 && a.4 == b.4 && a.5 < b.5
}

/// Every run timestamp is a valid Gregorian UTC date and time (month
/// 1 to 12, day within its month, leap years included, hour below 24,
/// minute and second below 60), and a later second gives a later
/// timestamp, field by field; sub-second parts do not enter it.
#[verifier::spinoff_prover]
#[verifier::rlimit(40)]
pub proof fn lemma_timestamps_valid_and_ordered(s1: int, s2: int)
    requires
        0 <= s1,
        0 <= s2,
    ensures
        ({
            let (y, m, d, hh, mi, ss) = timestamp_fields(s1);
            &&& 1 <= m <= 12 && 1 <= d <= days_in_month(y, m)
            &&& 0 <= hh < 24 && 0 <= mi < 60 && 0 <= ss < 60
        }),
        s1 < s2 ==> fields_before(timestamp_fields(s1), timestamp_fields(s2)),
{
    lemma_civil_valid(s1 / 86400);
    lemma_civil_valid(s2 / 86400);
    if s1 < s2 {
        let d1 = s1 / 86400;
        let d2 = s2 / 86400;
        if d1 < d2 {
            lemma_civil_increasing(d1, d2);
        } else {
            assert(d1 == d2);
            assert(s1 % 86400 < s2 % 86400);
        }
    }
}

/// `s` with zeros in front up to `width` characters.
pub open spec fn zero_pad(s: Seq<char>, width: nat) -> Seq<char> {
    if s.len() >= width {
        s
    } else {
        Seq::new((width - s.len()) as nat, |i: int| '0') + s
    }
}

/// Whether `a` comes before `b` in the order of their characters: at the
/// first position where they differ, `a` has the smaller character.
pub open spec fn text_before(a: Seq<char>, b: Seq<char>) -> bool {
    exists|i: int| 0 <= i < a.len() && i < b.len() && #[trigger] a.subrange(0, i) == b.subrange(0, i)
        && (a[i] as u32) < (b[i] as u32)
}

/// The decimal digit of `n` at place value `p` (1, 10, 100, ...).
pub open spec fn digit_at(n: int, p: int) -> char {
    hex_digit_char((n / p) % 10)
}

/// `n` written with exactly two decimal digits.
pub open spec fn two_digits(n: int) -> Seq<char> {
    seq![digit_at(n, 10), digit_at(n, 1)]
}

/// `n` written with exactly four decimal digits.
pub open spec fn four_digits(n: int) -> Seq<char> {
    seq![digit_at(n, 1000), digit_at(n, 100), digit_at(n, 10), digit_at(n, 1)]
}

/// The text of the run timestamp of `secs` seconds after the Unix epoch,
/// as `run_timestamp_utc` writes it.
pub open spec fn timestamp_text(secs: int) -> Seq<char> {
    let (y, m, d, hh, mi, ss) = timestamp_fields(secs);
    zero_pad(decimal_chars(y as nat), 4) + "-"@ + zero_pad(decimal_chars(m as nat), 2) + "-"@
        + zero_pad(decimal_chars(d as nat), 2) + "__"@ + zero_pad(decimal_chars(hh as nat), 2) + "-"@
        + zero_pad(decimal_chars(mi as nat), 2) + "-"@ + zero_pad(decimal_chars(ss as nat), 2)
}

proof fn lemma_digit_code(d: int)
    requires
        0 <= d <= 9,
    ensures
        hex_digit_char(d) as u32 == 48 + d,
{
}

proof fn lemma_two_digits(n: int)
    requires
        0 <= n < 100,
    ensures
        zero_pad(decimal_chars(n as nat), 2) == two_digits(n),
{
    reveal_with_fuel(decimal_chars, 3);
    if n < 10 {
        assert(zero_pad(decimal_chars(n as nat), 2) =~= two_digits(n));
    } else {
        assert((n / 10) % 10 == n / 10);
        assert(zero_pad(decimal_chars(n as nat), 2) =~= two_digits(n));
    }
}

proof fn lemma_four_digits(n: int)
    requires
        0 <= n < 10000,
    ensures
        zero_pad(decimal_chars(n as nat), 4) == four_digits(n),
{
    reveal_with_fuel(decimal_chars, 5);
    let n1 = n / 10;
    let n2 = n1 / 10;
    let n3 = n2 / 10;
    assert(n2 == n / 100 && n3 == n / 1000);
    if n < 10 {
        assert(zero_pad(decimal_chars(n as nat), 4) =~= four_digits(n));
    } else if n < 100 {
        assert(decimal_chars(n as nat) =~= seq![hex_digit_char(n1), hex_digit_char(n % 10)]);
        assert(zero_pad(decimal_chars(n as nat), 4) =~= four_digits(n));
    } else if n < 1000 {
        assert(decimal_chars(n1 as nat) =~= seq![hex_digit_char(n2), hex_digit_char(n1 % 10)]);
        assert(decimal_chars(n as nat) =~= seq![hex_digit_char(n2), hex_digit_char(n1 % 10), hex_digit_char(n % 10)]);
        assert(zero_pad(decimal_chars(n as nat), 4) =~= four_digits(n));
    } else {
        assert(decimal_chars(n2 as nat) =~= seq![hex_digit_char(n3), hex_digit_char(n2 % 10)]);
        assert(decimal_chars(n1 as nat) =~= seq![hex_digit_char(n3), hex_digit_char(n2 % 10), hex_digit_char(n1 % 10)]);
        assert(decimal_chars(n as nat) =~= seq![hex_digit_char(n3), hex_digit_char(n2 % 10), hex_digit_char(n1 % 10),
            hex_digit_char(n % 10)]);
        assert(zero_pad(decimal_chars(n as nat), 4) =~= four_digits(n));
    }
}

proof fn lemma_two_digits_before(a: int, b: int)
    requires
        0 <= a < b < 100,
    ensures
        text_before(two_digits(a), two_digits(b)),
{
    let x = two_digits(a);
    let y = two_digits(b);
    lemma_digit_code(a / 10);
    lemma_digit_code(b / 10);
    lemma_digit_code(a % 10);
    lemma_digit_code(b % 10);
    assert((a / 10) % 10 == a / 10 && (b / 10) % 10 == b / 10);
    if a / 10 < b / 10 {
        assert(x.subrange(0, 0) =~= y.subrange(0, 0));
    } else {
        assert(x.subrange(0, 1) =~= y.subrange(0, 1));
    }
}

proof fn lemma_four_digit_parts(a: int)
    requires
        0 <= a < 10000,
    ensures
        a == 1000 * (a / 1000) + 100 * ((a / 100) % 10) + 10 * ((a / 10) % 10) + a % 10,
        0 <= a / 1000 <= 9,
        (a / 1000) % 10 == a / 1000,
        0 <= (a / 100) % 10 <= 9,
        0 <= (a / 10) % 10 <= 9,
        0 <= a % 10 <= 9,
{
    assert(a == 1000 * (a / 1000) + 100 * ((a / 100) % 10) + 10 * ((a / 10) % 10) + a % 10) by (nonlinear_arith)
        requires 0 <= a < 10000;
}

proof fn lemma_four_digits_before(a: int, b: int)
    requires
        0 <= a < b < 10000,
    ensures
        text_before(four_digits(a), four_digits(b)),
{
    let x = four_digits(a);
    let y = four_digits(b);
    lemma_four_digit_parts(a);
    lemma_four_digit_parts(b);
    let (a3, a2, a1, a0) = (a / 1000, (a / 100) % 10, (a / 10) % 10, a % 10);
    let (b3, b2, b1, b0) = (b / 1000, (b / 100) % 10, (b / 10) % 10, b % 10);
    lemma_digit_code(a3);
    lemma_digit_code(b3);
    lemma_digit_code(a2);
    lemma_digit_code(b2);
    lemma_digit_code(a1);
    lemma_digit_code(b1);
    lemma_digit_code(a0);
    lemma_digit_code(b0);
    assert(x == seq![hex_digit_char(a3), hex_digit_char(a2), hex_digit_char(a1), hex_digit_char(a0)]);
    assert(y == seq![hex_digit_char(b3), hex_digit_char(b2), hex_digit_char(b1), hex_digit_char(b0)]);
    if a3 < b3 {
        assert(x.subrange(0, 0) =~= y.subrange(0, 0));
    } else if a2 < b2 {
        assert(a3 == b3);
        assert(x.subrange(0, 1) =~= y.subrange(0, 1));
    } else if a1 < b1 {
        assert(a3 == b3 && a2 == b2);
        assert(x.subrange(0, 2) =~= y.subrange(0, 2));
    } else {
        assert(a3 == b3 && a2 == b2 && a1 == b1 && a0 < b0);
        assert(x.subrange(0, 3) =~= y.subrange(0, 3));
    }
}

proof fn lemma_before_prefix(p: Seq<char>, a: Seq<char>, b: Seq<char>)
    requires
        text_before(a, b),
    ensures
        text_before(p + a, p + b),
{
    let i = choose|i: int| 0 <= i < a.len() && i < b.len() && #[trigger] a.subrange(0, i) == b.subrange(0, i)
        && (a[i] as u32) < (b[i] as u32);
    let j = p.len() + i;
    assert((p + a).subrange(0, j) =~= p + a.subrange(0, i));
    assert((p + b).subrange(0, j) =~= p + b.subrange(0, i));
    assert((p + a)[j] == a[i] && (p + b)[j] == b[i]);
}

proof fn lemma_before_suffix(a: Seq<char>, b: Seq<char>, r1: Seq<char>, r2: Seq<char>)
    requires
        text_before(a, b),
    ensures
        text_before(a + r1, b + r2),
{
    let i = choose|i: int| 0 <= i < a.len() && i < b.len() && #[trigger] a.subrange(0, i) == b.subrange(0, i)
        && (a[i] as u32) < (b[i] as u32);
    assert((a + r1).subrange(0, i) =~= a.subrange(0, i));
    assert((b + r2).subrange(0, i) =~= b.subrange(0, i));
    assert((a + r1)[i] == a[i] && (b + r2)[i] == b[i]);
}

/// A run timestamp is 20 characters long, `YYYY-MM-DD__HH-MM-SS`, for a
/// time before the year 10000.
pub proof fn lemma_timestamp_text_length(secs: int)
    requires
        0 <= secs,
        timestamp_fields(secs).0 < 10000,
    ensures
        timestamp_text(secs).len() == 20,
{
    lemma_timestamp_text_pieces(secs);
    reveal_strlit("-");
    reveal_strlit("__");
    reveal_with_fuel(text_upto, 12);
}

/// Run timestamps sort as text in the order of time: a later second gives
/// a text that comes later, for times before the year 10000.
pub proof fn lemma_timestamp_text_ordered(s1: int, s2: int)
    requires
        0 <= s1 < s2,
        timestamp_fields(s2).0 < 10000,
    ensures
        text_before(timestamp_text(s1), timestamp_text(s2)),
{
    lemma_timestamps_valid_and_ordered(s1, s2);
    lemma_timestamp_text_pieces(s1);
    lemma_timestamp_text_pieces(s2);
    lemma_timestamp_order_from_fields(timestamp_fields(s1), timestamp_fields(s2));
}

/// Piece `k` of the text of timestamp fields `f`: the zero-padded fields
/// and the separators between them, in order.
spec fn text_piece(f: (int, int, int, int, int, int), k: int) -> Seq<char> {
    if k == 0 {
        four_digits(f.0)
    } else if k == 2 {
        two_digits(f.1)
    } else if k == 4 {
        two_digits(f.2)
    } else if k == 5 {
        "__"@
    } else if k == 6 {
        two_digits(f.3)
    } else if k == 8 {
        two_digits(f.4)
    } else if k == 10 {
        two_digits(f.5)
    } else {
        "-"@
    }
}

/// The first `k` pieces of the text of timestamp fields `f`.
spec fn text_upto(f: (int, int, int, int, int, int), k: int) -> Seq<char>
    decreases k,
{
    if k <= 0 {
        Seq::empty()
    } else {
        text_upto(f, k - 1) + text_piece(f, k - 1)
    }
}

proof fn lemma_upto_same(f1: (int, int, int, int, int, int), f2: (int, int, int, int, int, int), k: int)
    requires
        forall|t: int| 0 <= t < k ==> #[trigger] text_piece(f1, t) == text_piece(f2, t),
    ensures
        text_upto(f1, k) == text_upto(f2, k),
    decreases k,
{
    if k > 0 {
        lemma_upto_same(f1, f2, k - 1);
        assert(text_piece(f1, k - 1) == text_piece(f2, k - 1));
    }
}

proof fn lemma_upto_before(f1: (int, int, int, int, int, int), f2: (int, int, int, int, int, int), k: int, j: int)
    requires
        0 <= k <= j,
        text_before(text_upto(f1, k), text_upto(f2, k)),
    ensures
        text_before(text_upto(f1, j), text_upto(f2, j)),
    decreases j - k,
{
    if k < j {
        lemma_upto_before(f1, f2, k, j - 1);
        lemma_before_suffix(text_upto(f1, j - 1), text_upto(f2, j - 1), text_piece(f1, j - 1), text_piece(f2, j - 1));
    }
}

proof fn lemma_upto_first_difference(f1: (int, int, int, int, int, int), f2: (int, int, int, int, int, int), k: int)
    requires
        0 <= k < 11,
        forall|t: int| 0 <= t < k ==> #[trigger] text_piece(f1, t) == text_piece(f2, t),
        text_before(text_piece(f1, k), text_piece(f2, k)),
    ensures
        text_before(text_upto(f1, 11), text_upto(f2, 11)),
{
    lemma_upto_same(f1, f2, k);
    lemma_before_prefix(text_upto(f1, k), text_piece(f1, k), text_piece(f2, k));
    lemma_upto_before(f1, f2, k + 1, 11);
}

proof fn lemma_timestamp_order_from_fields(f1: (int, int, int, int, int, int), f2: (int, int, int, int, int, int))
    requires
        fields_before(f1, f2),
        0 <= f1.0 < 10000 && 0 <= f2.0 < 10000,
        0 <= f1.1 < 100 && 0 <= f2.1 < 100 && 0 <= f1.2 < 100 && 0 <= f2.2 < 100,
        0 <= f1.3 < 100 && 0 <= f2.3 < 100 && 0 <= f1.4 < 100 && 0 <= f2.4 < 100,
        0 <= f1.5 < 100 && 0 <= f2.5 < 100,
    ensures
        text_before(text_upto(f1, 11), text_upto(f2, 11)),
{
    if f1.0 < f2.0 {
        lemma_four_digits_before(f1.0, f2.0);
        lemma_upto_first_difference(f1, f2, 0);
    } else if f1.1 < f2.1 {
        lemma_two_digits_before(f1.1, f2.1);
        lemma_upto_first_difference(f1, f2, 2);
    } else if f1.2 < f2.2 {
        lemma_two_digits_before(f1.2, f2.2);
        lemma_upto_first_difference(f1, f2, 4);
    } else if f1.3 < f2.3 {
        lemma_two_digits_before(f1.3, f2.3);
        lemma_upto_first_difference(f1, f2, 6);
    } else if f1.4 < f2.4 {
        lemma_two_digits_before(f1.4, f2.4);
        lemma_upto_first_difference(f1, f2, 8);
    } else {
        lemma_two_digits_before(f1.5, f2.5);
        lemma_upto_first_difference(f1, f2, 10);
    }
}

proof fn lemma_timestamp_text_pieces(secs: int)
    requires
        0 <= secs,
        timestamp_fields(secs).0 < 10000,
    ensures
        timestamp_text(secs) == text_upto(timestamp_fields(secs), 11),
        ({
            let f = timestamp_fields(secs);
            &&& 0 <= f.0 < 10000 && 1 <= f.1 <= 12 && 1 <= f.2 <= 31
            &&& 0 <= f.3 < 24 && 0 <= f.4 < 60 && 0 <= f.5 < 60
        }),
{
    let f = timestamp_fields(secs);
    lemma_timestamps_valid_and_ordered(secs, secs);
    lemma_civil_valid(secs / 86400);
    lemma_four_digits(f.0);
    lemma_two_digits(f.1);
    lemma_two_digits(f.2);
    lemma_two_digits(f.3);
    lemma_two_digits(f.4);
    lemma_two_digits(f.5);
    reveal_with_fuel(text_upto, 12);
    assert(timestamp_text(secs) =~= text_upto(f, 11));
}

fn padded(n: u64, width: usize) -> (res: Vec<char>)
    ensures
        res@ == zero_pad(decimal_chars(n as nat), width as nat),
{
    let digits = chars_of(decimal_string(n).as_str());
    let mut out: Vec<char> = Vec::new();
    if digits.len() < width {
        let k = width - digits.len();
        let mut i: usize = 0;
        while i < k
            invariant
                i <= k,
                out@ == Seq::new(i as nat, |j: int| '0'),
            decreases k - i,
        {
            out.push('0');
            proof {
                assert(out@ =~= Seq::new((i + 1) as nat, |j: int| '0'));
            }
            i = i + 1;
        }
    }
    out.extend_from_slice(digits.as_slice());
    proof {
        assert(out@ =~= zero_pad(decimal_chars(n as nat), width as nat));
    }
    out
}

/// The UTC timestamp of a run started `secs` seconds after the Unix epoch,
/// as `YYYY-MM-DD__HH-MM-SS` (each part zero-padded).
pub fn run_timestamp_utc(secs: u64) -> (res: String)
    requires
        secs <= i64::MAX,
    ensures
        res@ == timestamp_text(secs as int),
{
    let s = secs as i64;
    let days = s / 86400;
    let rem = s % 86400;
    let hour = rem / 3600;
    let min = (rem % 3600) / 60;
    let sec = rem % 60;
    let (year, month, day) = civil_from_days(days);
    let mut out = padded(year as u64, 4);
    let dash = chars_of("-");
    let sep = chars_of("__");
    out.extend_from_slice(dash.as_slice());
    out.extend_from_slice(padded(month as u64, 2).as_slice());
    out.extend_from_slice(dash.as_slice());
    out.extend_from_slice(padded(day as u64, 2).as_slice());
    out.extend_from_slice(sep.as_slice());
    out.extend_from_slice(padded(hour as u64, 2).as_slice());
    out.extend_from_slice(dash.as_slice());
    out.extend_from_slice(padded(min as u64, 2).as_slice());
    out.extend_from_slice(dash.as_slice());
    out.extend_from_slice(padded(sec as u64, 2).as_slice());
    string_from_chars(out.as_slice())
}

/// The base name of a run's log files: its timestamp.
pub fn run_base_name(timestamp: &str) -> (res: String)
    ensures
        res@ == timestamp@,
{
    string_from_chars(chars_of(timestamp).as_slice())
}

/// A field of a log event as the TUI shows it: text, a flag, or the
/// rendering of any other value (a number, a list, an object).
#[derive(Debug, Clone, PartialEq, Eq)]
pub enum TuiFieldValue {
    Text(String),
    Flag(bool),
    Rendered(String),
}

/// Whether UTF-8 bytes look like a long hex string: `0x` and more than 18
/// bytes.
pub open spec fn is_long_hex(b: Seq<u8>) -> bool {
    b.len() > 18 && b[0] == 0x30 && b[1] == 0x78
}

/// The TUI form of a text field, by its UTF-8 bytes: a long hex string
/// keeps its first 6 and last 4 bytes around an ellipsis; other text of
/// more than 40 bytes keeps its first 37 and an ellipsis; the rest shows as
/// it is.
pub open spec fn tui_text_spec(s: Seq<char>) -> Seq<char> {
    let b = encode_utf8(s);
    if is_long_hex(b) {
        decode_utf8(b.subrange(0, 6)) + seq!['…'] + decode_utf8(b.subrange(b.len() - 4, b.len() as int))
    } else if b.len() > 40 {
        decode_utf8(b.subrange(0, 37)) + seq!['…']
    } else {
        s
    }
}

/// Whether the cuts of `tui_text_spec` fall between characters.
pub open spec fn tui_text_cuttable(s: Seq<char>) -> bool {
    let b = encode_utf8(s);
    if is_long_hex(b) {
        is_char_boundary(b, 6) && is_char_boundary(b, b.len() - 4)
    } else if b.len() > 40 {
        is_char_boundary(b, 37)
    } else {
        true
    }
}

fn push_str_chars(out: &mut String, s: &str)
    ensures
        final(out)@ == old(out)@ + s@,
{
    let cs = chars_of(s);
    let mut i: usize = 0;
    while i < cs.len()
        invariant
            cs@ == s@,
            i <= cs@.len(),
            out@ == old(out)@ + s@.take(i as int),
        decreases cs@.len() - i,
    {
        push_char(out, cs[i]);
        proof {
            assert(s@.take(i as int + 1) =~= s@.take(i as int).push(s@[i as int]));
        }
        i = i + 1;
    }
    proof {
        assert(s@.take(cs@.len() as int) =~= s@);
    }
}

/// The TUI form of a text field (see `tui_text_spec`).
pub fn tui_text(s: &str) -> (res: String)
    requires
        tui_text_cuttable(s@),
    ensures
        res@ == tui_text_spec(s@),
{
    let b = s.as_bytes();
    let n = b.len();
    proof {
        vstd::utf8::encode_utf8_valid_utf8(s@);
    }
    if n > 18 && b[0] == 0x30 && b[1] == 0x78 {
        let (head, _) = s.split_at(6);
        let (_, tail) = s.split_at(n - 4);
        proof {
            vstd::utf8::encode_utf8_decode_utf8(head@);
            vstd::utf8::encode_utf8_decode_utf8(tail@);
        }
        let mut out = String::new();
        push_str_chars(&mut out, head);
        push_char(&mut out, '…');
        push_str_chars(&mut out, tail);
        proof {
            assert(out@ =~= head@ + seq!['…'] + tail@);
        }
        out
    } else if n > 40 {
        let (head, _) = s.split_at(37);
        proof {
            vstd::utf8::encode_utf8_decode_utf8(head@);
        }
        let mut out = String::new();
        push_str_chars(&mut out, head);
        push_char(&mut out, '…');
        proof {
            assert(out@ =~= head@ + seq!['…']);
        }
        out
    } else {
        let mut out = String::new();
        push_str_chars(&mut out, s);
        proof {
            assert(out@ =~= s@);
        }
        out
    }
}

/// How the TUI shows a field of a log event: text as `tui_text` cuts it, a
/// flag as `true` or `false`, anything else as rendered.
pub fn format_tui_field_value(value: &TuiFieldValue) -> (res: String)
    requires
        match value {
            TuiFieldValue::Text(s) => tui_text_cuttable(s@),
            _ => true,
        },
    ensures
        res@ == match value {
            TuiFieldValue::Text(s) => tui_text_spec(s@),
            TuiFieldValue::Flag(true) => "true"@,
            TuiFieldValue::Flag(false) => "false"@,
            TuiFieldValue::Rendered(r) => r@,
        },
{
    match value {
        TuiFieldValue::Text(s) => tui_text(s.as_str()),
        TuiFieldValue::Flag(f) => {
            let mut out = String::new();
            if *f {
                push_str_chars(&mut out, "true");
            } else {
                push_str_chars(&mut out, "false");
            }
            proof {
                assert(out@ =~= (if *f { "true"@ } else { "false"@ }));
            }
            out
        },
        TuiFieldValue::Rendered(r) => {
            let mut out = String::new();
            push_str_chars(&mut out, r.as_str());
            proof {
                assert(out@ =~= r@);
            }
            out
        },
    }
}

} // verus!
