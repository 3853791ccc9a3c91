use zeromem::protocol::{check_lease, handle, parse_command, refuse_line, Command, Reply, Response};
use zeromem::startup::{
    limit_cpu_affinity, max_cpus, parse_args, parse_number, wants_hash_embedder, DATABASE_MODE,
    DEFAULT_MAX_CPUS, DIRECTORY_MODE,
};

fn strings(list: &[&str]) -> Vec<String> {
    list.iter().map(|s| s.to_string()).collect()
}

#[test]
fn commands_are_known_by_their_names() {
    assert!(matches!(parse_command("ingest"), Ok(Command::Ingest)));
    assert!(matches!(parse_command("ingest_batch"), Ok(Command::IngestBatch)));
    assert!(matches!(parse_command("query"), Ok(Command::Query)));
    assert!(matches!(parse_command("stats"), Ok(Command::Stats)));
    assert!(matches!(parse_command("acquire_backfill"), Ok(Command::AcquireBackfill)));
    assert!(matches!(parse_command("release_backfill"), Ok(Command::ReleaseBackfill)));
    assert!(matches!(parse_command("delete_session"), Ok(Command::DeleteSession)));
    assert!(matches!(parse_command("shutdown"), Ok(Command::Shutdown)));
}

#[test]
fn unknown_commands_are_named_in_the_error() {
    assert!(matches!(parse_command("Stats"), Err(m) if m == "unknown command: Stats"));
    assert!(matches!(parse_command(""), Err(m) if m == "unknown command: "));
}

#[test]
fn leases_need_an_owner_and_some_time() {
    assert!(check_lease("me", 1).is_ok());
    for (owner, seconds) in [("", 1), ("me", 0), ("me", -1), ("", 0)] {
        assert_eq!(
            check_lease(owner, seconds),
            Err("owner and a positive lease_seconds are required".to_string())
        );
    }
}

#[test]
fn answers_repeat_the_mark_and_hold_a_result_or_an_error() {
    let (good, more) = handle(17, "delete_session", |_| Ok(Reply::Deleted { deleted: 3 }));
    assert_eq!(good.id, 17);
    assert!(good.ok);
    assert!(matches!(good.result, Some(Reply::Deleted { deleted: 3 })));
    assert_eq!(good.error, None);
    assert!(!more);
    let (bad, more) = handle("x", "query", |_| Err("broken".to_string()));
    assert_eq!(bad.id, "x");
    assert!(!bad.ok);
    assert!(bad.result.is_none());
    assert_eq!(bad.error, Some("broken".to_string()));
    assert!(!more);
}

#[test]
fn commands_are_handed_to_the_work() {
    let mut seen = false;
    handle(1, "ingest_batch", |command| {
        seen = matches!(command, Command::IngestBatch);
        Ok(Reply::BatchIngested { stored: 1, skipped: 0 })
    });
    assert!(seen);
    let (refusal, more) = handle(2, "reboot", |_| panic!("no such command"));
    assert_eq!(refusal.id, 2);
    assert!(!refusal.ok);
    assert!(refusal.result.is_none());
    assert_eq!(refusal.error, Some("unknown command: reboot".to_string()));
    assert!(!more);
}

#[test]
fn only_shutdown_ends_the_process_and_it_always_goes_well() {
    let (response, end) = handle(9, "shutdown", |_| panic!("nothing to do"));
    assert!(end);
    assert_eq!(response.id, 9);
    assert!(response.ok);
    assert!(matches!(response.result, Some(Reply::Shutdown { shutdown: true })));
    assert_eq!(response.error, None);
    assert!(!handle(1, "Shutdown", |_| Err("never".to_string())).1);
    assert!(!handle(1, "stats", |_| Err("failed".to_string())).1);
}

#[test]
fn lines_that_are_no_requests_are_refused() {
    let refusal: Response<Option<u8>> = refuse_line(None, "expected value at line 1");
    assert_eq!(refusal.id, None);
    assert!(!refusal.ok);
    assert!(refusal.result.is_none());
    assert_eq!(refusal.error, Some("invalid request: expected value at line 1".to_string()));
}

#[test]
fn arguments_name_the_database_and_the_cache() {
    assert_eq!(
        parse_args(&strings(&["--cache", "c", "--db", "d"])),
        Ok(("d".to_string(), "c".to_string()))
    );
    assert_eq!(
        parse_args(&strings(&["--db", "d", "--cache", "c", "--db", "e"])),
        Ok(("e".to_string(), "c".to_string()))
    );
    assert_eq!(
        parse_args(&strings(&["--db", "--cache", "--cache", "c"])),
        Ok(("--cache".to_string(), "c".to_string()))
    );
}

#[test]
fn arguments_that_are_missing_or_unknown_are_errors() {
    let wrong = [
        (vec![], "--db is required"),
        (vec!["--cache", "c"], "--db is required"),
        (vec!["--db", "d"], "--cache is required"),
        (vec!["--cache", "c", "--db"], "--db is required"),
        (vec!["--db", "d", "--cache", "c", "--db"], "--db is required"),
        (vec!["--verbose"], "unknown argument: --verbose"),
        (vec!["--db", "d", "x", "--cache", "c"], "unknown argument: x"),
    ];
    for (args, message) in wrong {
        assert_eq!(parse_args(&strings(&args)), Err(message.to_string()));
    }
}

#[test]
fn numbers_are_read_as_the_standard_library_reads_them() {
    let largest = usize::MAX.to_string();
    let larger = format!("{largest}0");
    for text in [
        "0", "1", "42", "+7", "007", "", "+", "-1", " 3", "3 ", "1_000", "x", "++1", "٣",
        "18446744073709551616", &largest, &larger,
    ] {
        assert_eq!(parse_number(text), text.parse::<usize>().ok(), "{text}");
    }
}

#[test]
fn processors_are_limited_to_a_positive_number_or_the_default() {
    assert_eq!(DEFAULT_MAX_CPUS, 4);
    assert_eq!(max_cpus(Some("2")), 2);
    assert_eq!(max_cpus(Some("0")), 4);
    assert_eq!(max_cpus(Some("many")), 4);
    assert_eq!(max_cpus(None), 4);
}

#[test]
fn the_first_available_processors_are_used() {
    let available = vec![false, true, true, false, true, true];
    assert_eq!(
        limit_cpu_affinity(&available, 3),
        Some(vec![false, true, true, false, true, false])
    );
    assert_eq!(limit_cpu_affinity(&available, 4), Some(available.clone()));
    assert_eq!(limit_cpu_affinity(&available, 9), Some(available.clone()));
    assert_eq!(limit_cpu_affinity(&available, 0), None);
    assert_eq!(limit_cpu_affinity(&vec![false, false], 2), None);
    assert_eq!(limit_cpu_affinity(&vec![], 2), None);
}

#[test]
fn the_embedder_without_a_model_is_chosen_by_name() {
    assert!(wants_hash_embedder(Some("hash")));
    assert!(!wants_hash_embedder(Some("Hash")));
    assert!(!wants_hash_embedder(Some("")));
    assert!(!wants_hash_embedder(None));
}

#[test]
fn files_are_for_their_owner_alone() {
    assert_eq!(DIRECTORY_MODE, 0o700);
    assert_eq!(DATABASE_MODE, 0o600);
}
