use sysrag::engine::{current_timestamp, extract_value, parse_pid, RagEngine};
use sysrag::event::{format_event_line, RawEvent};
use sysrag::vector::{EmbedVector, SCALE};

const TAU: i64 = 200_000; // fixed-point 0.2

fn v(components: Vec<i64>) -> EmbedVector {
    EmbedVector::new(components)
}

#[test]
fn extract_value_finds_tokens() {
    let line = "execve: pid=10 uid=0 comm=bash";
    assert_eq!(extract_value(line, "pid="), Some("10".to_string()));
    assert_eq!(extract_value(line, "uid="), Some("0".to_string()));
    assert_eq!(extract_value(line, "comm="), Some("bash".to_string()));
    assert_eq!(extract_value(line, "missing="), None);
}

#[test]
fn extract_value_needs_a_word_start() {
    // "apid=7" is one token that does not start with "pid=".
    assert_eq!(extract_value("execve: apid=7", "pid="), None);
    assert_eq!(extract_value("pid=3 pid=4", "pid="), Some("3".to_string()));
    assert_eq!(extract_value("", "pid="), None);
}

#[test]
fn parse_pid_defaults_to_zero() {
    assert_eq!(parse_pid("execve: pid=1337 comm=nc"), 1337);
    assert_eq!(parse_pid("execve: comm=nc"), 0);
    assert_eq!(parse_pid("execve: pid=notanumber comm=nc"), 0);
    assert_eq!(parse_pid("execve: pid=99999999999 comm=nc"), 0);
}

#[test]
fn seeded_command_with_same_vector_is_normal() {
    // End-to-end scenario: seed the baseline with "bash", then process an
    // event for the same command embedding to the same vector.
    let mut engine = RagEngine::new(TAU);
    let bash = v(vec![500_000, 500_000, 0]);
    engine.seed_baseline("bash", v(vec![500_000, 500_000, 0]));
    let r = engine.process_log("execve: pid=10 uid=0 comm=bash", bash);
    assert!(r.is_none());
    assert_eq!(engine.events_processed, 1);
}

#[test]
fn unseeded_command_is_always_anomalous() {
    // End-to-end scenario: an unseeded command is flagged with score 0.
    let mut engine = RagEngine::new(TAU);
    engine.seed_baseline("bash", v(vec![500_000, 500_000, 0]));
    let line = "execve: pid=1337 uid=0 comm=nc";
    let report = engine
        .process_log(line, v(vec![0, 700_000, -100_000]))
        .expect("first sight of nc must be anomalous");
    assert_eq!(report.similarity_score, 0);
    assert_eq!(report.command, "nc");
    assert_eq!(report.pid, 1337);
    assert_eq!(report.raw_log, line);
    assert_eq!(report.id.len(), 36);
}

#[test]
fn baseline_is_overwritten_even_on_anomaly() {
    // Last-write-wins: after any observation the baseline holds exactly the
    // observed vector, so repeating the same event is no longer anomalous.
    let mut engine = RagEngine::new(TAU);
    let line = "execve: pid=42 uid=0 comm=nc";
    let first = engine.process_log(line, v(vec![0, 700_000, -100_000]));
    assert!(first.is_some());
    let second = engine.process_log(line, v(vec![0, 700_000, -100_000]));
    assert!(second.is_none(), "baseline must now hold the observed vector");
    assert_eq!(engine.events_processed, 2);
}

#[test]
fn baseline_drifts_to_latest_observation() {
    let mut engine = RagEngine::new(TAU);
    engine.seed_baseline("bash", v(vec![1_000_000, 0]));
    // orthogonal vector: similarity 0, flagged, but the entry is replaced.
    let flagged = engine.process_log("execve: pid=5 uid=0 comm=bash", v(vec![0, 1_000_000]));
    assert!(flagged.is_some());
    // the replacement is now the baseline: same vector scores 1.0.
    let (anomaly, score) = engine
        .store
        .check_anomaly("bash", &v(vec![0, 1_000_000]));
    assert!(!anomaly);
    assert_eq!(score, SCALE);
}

#[test]
fn missing_comm_token_uses_unknown() {
    let mut engine = RagEngine::new(TAU);
    let report = engine
        .process_log("execve: pid=7 uid=0", v(vec![1, 2, 3]))
        .expect("unseen command");
    assert_eq!(report.command, "unknown");
}

#[test]
fn embedding_failure_drops_event_before_engine() {
    // The caller only reaches process_log with a successfully embedded
    // vector; a dropped event leaves every counter unchanged.
    let engine = RagEngine::new(TAU);
    assert_eq!(engine.events_processed, 0);
    assert_eq!(engine.store.len(), 0);
}

#[test]
fn decode_raw_event_fields() {
    let mut data = vec![0u8; 24];
    data[0] = 0x39;
    data[1] = 0x05; // pid 1337 little-endian
    data[4] = 0xe8;
    data[5] = 0x03; // uid 1000 little-endian
    data[8] = b'n';
    data[9] = b'c'; // comm "nc", NUL padded
    let ev = RawEvent::decode(&data).expect("full record decodes");
    assert_eq!(ev.pid, 1337);
    assert_eq!(ev.uid, 1000);
    assert_eq!(ev.comm, b"nc".to_vec());
}

#[test]
fn decode_rejects_truncated_records() {
    assert!(RawEvent::decode(&[0u8; 23]).is_none());
    assert!(RawEvent::decode(&[]).is_none());
}

#[test]
fn decode_keeps_full_width_comm() {
    let mut data = vec![0u8; 24];
    for i in 0..16 {
        data[8 + i] = b'a' + i as u8;
    }
    let ev = RawEvent::decode(&data).expect("full record decodes");
    assert_eq!(ev.comm.len(), 16);
    assert_eq!(ev.comm[0], b'a');
    assert_eq!(ev.comm[15], b'p');
}

#[test]
fn formatted_line_round_trips_through_the_parser() {
    let line = format_event_line(1337, 1000, "nc");
    assert_eq!(line, "execve: pid=1337 uid=1000 comm=nc");
    assert_eq!(parse_pid(&line), 1337);
    assert_eq!(extract_value(&line, "comm="), Some("nc".to_string()));
}

#[test]
fn sensor_to_engine_pipeline() {
    let mut data = vec![0u8; 24];
    data[0] = 0x39;
    data[1] = 0x05;
    data[8] = b'n';
    data[9] = b'c';
    let ev = RawEvent::decode(&data).unwrap();
    let comm = sysrag::event::comm_to_string(&ev.comm);
    let line = format_event_line(ev.pid, ev.uid, &comm);
    let mut engine = RagEngine::new(TAU);
    let report = engine.process_log(&line, v(vec![300_000, -400_000])).unwrap();
    assert_eq!(report.pid, 1337);
    assert_eq!(report.command, "nc");
}

#[test]
fn timestamps_count_unix_seconds() {
    let t = current_timestamp();
    assert!(t > 0);
}
