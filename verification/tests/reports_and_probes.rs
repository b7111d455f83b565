use stateless_history_node::harness::{
    build_anchor_targets, parse_run_secs, pending_targets, pop_next_block_for_head, receipts_request, BlockStats,
    PeerBan, PeerHealthTable, ProbeRun, ReceiptsRequest, Stats, PEER_FAILURE_THRESHOLD,
};
use stateless_history_node::logging::{
    civil_from_days, console_filter, format_tui_field_value, tui_text, TuiFieldValue, run_base_name, run_derived, run_timestamp_utc, tui_accepts, tui_min_level,
    DedupWriter, JsonLogFilter, LogLevel, TuiLogEntry, TuiLogRing, WriterAction,
};
use stateless_history_node::metrics::{percentile, percentile_triplet, sort_samples};

#[test]
fn timestamps_are_utc_calendar_dates() {
    assert_eq!(run_timestamp_utc(0), "1970-01-01__00-00-00");
    assert_eq!(run_timestamp_utc(1_700_000_000), "2023-11-14__22-13-20");
    assert_eq!(run_timestamp_utc(951_868_799), "2000-02-29__23-59-59");
    assert_eq!(civil_from_days(0), (1970, 1, 1));
    assert_eq!(civil_from_days(19_675), (2023, 11, 14));
    assert_eq!(run_base_name("2023-11-14__22-13-20"), "2023-11-14__22-13-20");
}

#[test]
fn console_filters_by_verbosity() {
    assert_eq!(console_filter(0), "warn,shinode=info");
    assert_eq!(console_filter(1), "warn,shinode=debug");
    assert_eq!(console_filter(2), "info,shinode=trace");
    assert_eq!(console_filter(9), "debug,shinode=trace");
    assert_eq!(tui_min_level(0), LogLevel::Info);
    assert_eq!(tui_min_level(5), LogLevel::Trace);
    assert!(tui_accepts(LogLevel::Info, LogLevel::Info, false));
    assert!(!tui_accepts(LogLevel::Debug, LogLevel::Info, false));
    assert!(!tui_accepts(LogLevel::Warn, LogLevel::Info, false));
    assert!(tui_accepts(LogLevel::Warn, LogLevel::Info, true));
}

#[test]
fn json_log_filters() {
    assert!(JsonLogFilter::All.accepts(None));
    assert!(JsonLogFilter::ResourcesOnly.accepts(Some("resources")));
    assert!(!JsonLogFilter::ResourcesOnly.accepts(Some("other")));
    assert!(!JsonLogFilter::ResourcesOnly.accepts(None));
    assert!(!JsonLogFilter::ExcludeResources.accepts(Some("resources")));
    assert!(JsonLogFilter::ExcludeResources.accepts(None));
}

#[test]
fn dedup_writer_collapses_repeats() {
    let mut writer = DedupWriter::new();
    assert_eq!(writer.on_record(7, false, false), vec![WriterAction::HoldNew, WriterAction::ResetDedupTimer]);
    assert_eq!(writer.on_record(7, true, false), vec![]);
    assert_eq!(writer.on_record(7, true, false), vec![]);
    assert_eq!(
        writer.on_record(8, true, false),
        vec![WriterAction::WriteHeld { count: Some(3) }, WriterAction::HoldNew, WriterAction::ResetDedupTimer]
    );
    assert_eq!(
        writer.on_record(9, false, true),
        vec![
            WriterAction::WriteHeld { count: None },
            WriterAction::HoldNew,
            WriterAction::ResetDedupTimer,
            WriterAction::WriteHeld { count: None },
            WriterAction::FlushFile,
            WriterAction::ResetFlushTimer,
        ]
    );
    assert_eq!(writer.since_flush, 0);
}

fn entry(n: u64) -> TuiLogEntry {
    TuiLogEntry { level: LogLevel::Info, message: format!("m{n}"), timestamp_ms: n }
}

#[test]
fn tui_ring_keeps_the_newest_hundred() {
    let mut ring = TuiLogRing::new();
    for n in 0..105 {
        ring.push(entry(n));
    }
    let drained = ring.drain();
    assert_eq!(drained.len(), 100);
    assert_eq!(drained[0].timestamp_ms, 5);
    assert_eq!(drained[99].timestamp_ms, 104);
    assert!(ring.drain().is_empty());
}

#[test]
fn run_report_derivations() {
    let derived = run_derived(10, 20, 100, 64, None);
    assert_eq!(derived.safe_head, 36);
    assert!(derived.rollback_window_applied);
    assert_eq!(derived.worker_count, 4);
    let derived = run_derived(10, 20, 30, 64, Some(0));
    assert_eq!(derived.safe_head, 0);
    assert_eq!(derived.worker_count, 1);
    assert!(!run_derived(0, 0, 5, 0, Some(8)).rollback_window_applied);
}

#[test]
fn percentiles_of_samples() {
    assert_eq!(sort_samples(&vec![5, 1, 4, 1]), vec![1, 1, 4, 5]);
    assert_eq!(percentile(&vec![], 50), None);
    assert_eq!(percentile_triplet(&vec![]), (None, None, None));
    let samples: Vec<u64> = (1..=100).rev().collect();
    assert_eq!(percentile_triplet(&samples), (Some(51), Some(95), Some(99)));
    assert_eq!(percentile_triplet(&vec![7]), (Some(7), Some(7), Some(7)));
}

#[test]
fn anchor_targets_are_sorted_windows() {
    let targets = build_anchor_targets();
    assert_eq!(targets.len(), 5000);
    assert_eq!(targets[0], 10_000_835);
    assert_eq!(targets[999], 10_001_834);
    assert_eq!(targets[1000], 11_362_579);
    assert_eq!(targets[4999], 21_689_328);
    assert!(targets.windows(2).all(|w| w[0] < w[1]));
}

#[test]
fn pending_targets_skip_known_blocks() {
    assert_eq!(pending_targets(&vec![1, 2, 3, 4], &vec![4, 2, 9]), vec![1, 3]);
    let mut queue = vec![5, 6];
    assert_eq!(pop_next_block_for_head(&mut queue, 4), None);
    assert_eq!(queue, vec![5, 6]);
    assert_eq!(pop_next_block_for_head(&mut queue, 5), Some(5));
    assert_eq!(queue, vec![6]);
}

fn args(list: &[&str]) -> Vec<String> {
    list.iter().map(|s| s.to_string()).collect()
}

#[test]
fn run_secs_from_command_line() {
    assert_eq!(parse_run_secs(&args(&["harness", "--run-secs=30"])), Some(30));
    assert_eq!(parse_run_secs(&args(&["harness", "--run-secs", "45"])), Some(45));
    assert_eq!(parse_run_secs(&args(&["harness", "--run-secs", "x"])), None);
    assert_eq!(parse_run_secs(&args(&["harness", "--run-secs"])), None);
    assert_eq!(parse_run_secs(&args(&["harness", "--verbose", "--run-secs=+7"])), Some(7));
    assert_eq!(parse_run_secs(&args(&["--run-secs=5"])), None);
    assert_eq!(parse_run_secs(&args(&["harness", "--run-secs=18446744073709551616"])), None);
    assert_eq!(parse_run_secs(&args(&["harness"])), None);
}

#[test]
fn peer_rested_after_five_failures_in_a_row() {
    let mut table = PeerHealthTable::new();
    for _ in 0..(PEER_FAILURE_THRESHOLD - 1) {
        assert_eq!(table.record_peer_failure("p", 1_000), None);
    }
    assert_eq!(table.record_peer_failure("p", 1_000), Some(PeerBan { ban_secs: 120, failures: 5 }));
    assert_eq!(table.peer_ban_remaining("p", 1_000), Some(120_000));
    assert_eq!(table.peer_ban_remaining("p", 121_000), None);
    assert_eq!(table.health("p").unwrap().ban_until_ms, None);
    assert_eq!(table.peer_ban_remaining("unknown", 0), None);
}

#[test]
fn success_resets_failure_count() {
    let mut table = PeerHealthTable::new();
    for _ in 0..4 {
        table.record_peer_failure("p", 0);
    }
    table.record_peer_success("p");
    assert_eq!(table.health("p").unwrap().consecutive_failures, 0);
    for _ in 0..4 {
        assert_eq!(table.record_peer_failure("p", 0), None);
    }
    table.record_peer_success("never-seen");
    assert!(table.health("never-seen").is_none());
}

#[test]
fn probe_stats_tally_by_block() {
    let mut stats = Stats::new();
    stats.record_probe(20, true, true, 5, Some(7));
    stats.record_probe(10, false, false, 3, None);
    stats.record_probe(20, true, false, 6, Some(100));
    stats.record_peer("reth/v1");
    stats.record_peer("reth/v1");
    assert_eq!(stats.total_probes, 3);
    assert_eq!(stats.receipts_ok_total, 1);
    assert_eq!(stats.clients.get("reth/v1"), Some(2));
    let entries = stats.by_block.sorted_entries();
    assert_eq!(
        entries,
        vec![
            (10, BlockStats { total: 1, header_ok: 0, receipts_ok: 0, header_ms_sum: 0, receipts_ms_sum: 0 }),
            (20, BlockStats { total: 2, header_ok: 2, receipts_ok: 1, header_ms_sum: 11, receipts_ms_sum: 7 }),
        ]
    );
}

#[test]
fn probe_run_outcomes() {
    let mut run = ProbeRun::new(&vec![1, 2, 3], vec![2]);
    assert_eq!(run.queue, vec![1, 3]);
    assert_eq!(receipts_request(69), ReceiptsRequest::Eth69);
    assert_eq!(receipts_request(70), ReceiptsRequest::Eth70);
    assert_eq!(receipts_request(68), ReceiptsRequest::Legacy);
    assert_eq!(run.header_failed("p", 1, 4, 0), None);
    let outcome = run.receipts_finished("p", 1, 4, 9, true, 0);
    assert_eq!(outcome.ban, None);
    assert!(outcome.newly_known);
    assert_eq!(run.peer_health.health("p").unwrap().consecutive_failures, 0);
    let again = run.receipts_finished("q", 1, 4, 9, true, 0);
    assert!(!again.newly_known);
    assert_eq!(run.known_blocks, vec![2, 1]);
    assert_eq!(run.stats.total_probes, 3);
}

#[test]
fn tui_fields_cut_long_hex_and_long_text() {
    let hash = "0x1234567890abcdef1234567890abcdef1234567890abcdef1234567890abcdef";
    assert_eq!(tui_text(hash), "0x1234\u{2026}cdef");
    assert_eq!(tui_text("0x1234"), "0x1234");
    assert_eq!(tui_text("0x1234567890123456"), "0x1234567890123456");
    assert_eq!(tui_text("0x12345678901234567"), "0x1234\u{2026}4567");
    assert_eq!(tui_text("0x123456789012345678"), "0x1234\u{2026}5678");
    let long = "a".repeat(41);
    assert_eq!(tui_text(&long), format!("{}\u{2026}", "a".repeat(37)));
    let forty = "b".repeat(40);
    assert_eq!(tui_text(&forty), forty);
    let accented = format!("a{}", "\u{e9}".repeat(20));
    assert_eq!(tui_text(&accented), format!("a{}\u{2026}", "\u{e9}".repeat(18)));
}

#[test]
fn tui_fields_show_flags_and_rendered_values() {
    assert_eq!(format_tui_field_value(&TuiFieldValue::Flag(true)), "true");
    assert_eq!(format_tui_field_value(&TuiFieldValue::Flag(false)), "false");
    assert_eq!(format_tui_field_value(&TuiFieldValue::Rendered("42".to_string())), "42");
    assert_eq!(
        format_tui_field_value(&TuiFieldValue::Text("peer connected".to_string())),
        "peer connected"
    );
}

#[test]
fn percentiles_ignore_sample_order() {
    let forward: Vec<u64> = (1..=100).collect();
    let mut shuffled: Vec<u64> = (1..=100).rev().collect();
    shuffled.swap(3, 70);
    assert_eq!(percentile_triplet(&forward), percentile_triplet(&shuffled));
    assert_eq!(sort_samples(&shuffled), forward);
    assert_eq!(sort_samples(&vec![3, 1, 3, 2]), vec![1, 2, 3, 3]);
}

#[test]
fn timestamps_follow_the_gregorian_calendar_in_order() {
    assert_eq!(run_timestamp_utc(951_782_399), "2000-02-28__23-59-59");
    assert_eq!(run_timestamp_utc(951_782_400), "2000-02-29__00-00-00");
    assert_eq!(run_timestamp_utc(4_107_542_399), "2100-02-28__23-59-59");
    assert_eq!(run_timestamp_utc(4_107_542_400), "2100-03-01__00-00-00");
    assert_eq!(run_timestamp_utc(946_684_799), "1999-12-31__23-59-59");
    let mut last = run_timestamp_utc(0);
    for secs in (0..4_200_000_000u64).step_by(9_999_991) {
        let now = run_timestamp_utc(secs);
        assert!(now >= last);
        assert_eq!(now.len(), 20);
        last = now;
    }
}

#[test]
fn timestamps_sort_as_text_up_to_the_last_second_of_year_9999() {
    assert_eq!(run_timestamp_utc(253_402_300_799), "9999-12-31__23-59-59");
    let a = run_timestamp_utc(59);
    let b = run_timestamp_utc(60);
    assert_eq!(a, "1970-01-01__00-00-59");
    assert_eq!(b, "1970-01-01__00-01-00");
    assert!(a < b);
    assert!(run_timestamp_utc(253_402_300_798) < run_timestamp_utc(253_402_300_799));
    assert!(run_timestamp_utc(86_399) < run_timestamp_utc(86_400));
}
