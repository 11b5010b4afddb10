use codex_companion_relay::account_concurrency::{
    first_lock, lock_directory, lock_file, next_eligible, next_lock, wait_deadline,
    wait_for_account, AccountConcurrency, AccountError, LockOutcome, LockStep,
};
use codex_companion_relay::api_service::{
    affinity_cutoff, api_key_from, authenticate, changed_client, client_change, client_health,
    client_health_status, client_id_at, client_record, compact_log_error, cooldown_active,
    cooldown_until, days_into_period, generate_api_key, generate_client_id, key_change, key_matches,
    key_prefix, log_cutoff, normalize_models, parse_timestamp, parse_timestamp_sql, percentage, presented_key,
    read_stored_history, request_list_limit, stored_models, timestamp, validate_client_name, ApiServiceStore,
    ClientError, Period, RequestAttemptFinish, RequestAttemptStart, RequestLogFinish,
    RequestLogStart, RequestOutcome, StoredClient, StoredHistoryFault, UtcTime,
};
use codex_companion_relay::clock::unix_now;
use codex_companion_relay::events::{
    begin_health_success, begins_new_log, claim_health_success, diagnostic_level, keep_last,
    keep_whole_lines, lines, log_lines, settle_health_success, tail_start,
    HealthSuccessCheckpoint, SuccessStep,
};
use codex_companion_relay::server::{
    browser_origin_is_loopback, enforces_api_key, validate_relay_bind_security, IpNumber,
    RelayStartOutcome,
};

#[test]
fn a_new_key_authenticates_by_its_hash() {
    let api_key = generate_api_key();
    assert!(api_key.starts_with("cc_live_"));
    assert_eq!(api_key.len(), 51);
    let record = client_record(
        "Local app",
        &vec!["gpt-5.6".to_string()],
        generate_client_id(1),
        &api_key,
    )
    .expect("record");
    assert_eq!(record.allowed_models, "[\"gpt-5.6\"]");
    assert_eq!(record.key_prefix, key_prefix(&api_key));
    let presented = presented_key(&format!(" {api_key} ")).expect("a key");
    assert!(key_matches(&record.key_hash, &presented));
    assert!(!key_matches(&record.key_hash, "cc_live_wrong"));
    assert_eq!(presented_key("  "), None);
    let rotated = generate_api_key();
    assert_ne!(rotated, api_key);
    let record =
        client_record("Local app", &Vec::new(), record.id, &rotated).expect("record");
    assert!(!key_matches(&record.key_hash, &api_key));
    assert!(key_matches(&record.key_hash, &rotated));
}

fn stored(api_key: &str, enabled: bool) -> StoredClient {
    let record =
        client_record("Local app", &Vec::new(), "client_1".to_string(), api_key).expect("record");
    StoredClient {
        id: record.id,
        enabled,
        key_prefix: record.key_prefix,
        key_hash: record.key_hash,
        request_count: 4,
    }
}

#[test]
fn client_key_is_shown_once_and_authenticates_by_hash() {
    let api_key = generate_api_key();
    let record = client_record(
        "Local app",
        &vec!["gpt-5.6".to_string()],
        generate_client_id(1),
        &api_key,
    )
    .expect("create");
    assert!(api_key.starts_with("cc_live_"));
    assert_eq!(stored_models(&record.allowed_models), ["gpt-5.6"]);
    let id = record.id.clone();
    let row = StoredClient {
        id: record.id,
        enabled: true,
        key_prefix: record.key_prefix,
        key_hash: record.key_hash,
        request_count: 0,
    };
    let authenticated = authenticate(Some(row), &api_key).expect("client");
    assert_eq!(authenticated.id, id);
    assert_eq!(authenticated.request_count, 1);
    assert!(authenticate(Some(authenticated), "cc_live_wrong").is_none());
}

#[test]
fn rotation_invalidates_previous_key() {
    let created = generate_api_key();
    let rotated = generate_api_key();
    let record =
        client_record("CLI", &Vec::new(), generate_client_id(1), &created).expect("create");
    let change = key_change(&record.id, &rotated);
    assert_eq!(change.id, record.id);
    let row = || StoredClient {
        id: record.id.clone(),
        enabled: true,
        key_prefix: change.key_prefix.clone(),
        key_hash: change.key_hash.clone(),
        request_count: 0,
    };
    assert!(authenticate(Some(row()), &created).is_none());
    assert!(authenticate(Some(row()), &rotated).is_some());
}

#[test]
fn a_rotated_key_replaces_the_one_before() {
    let first = "cc_live_first_key_of_the_client";
    let second = "cc_live_second_key_of_the_client";
    let client = authenticate(Some(stored(first, true)), &format!(" {first} ")).expect("client");
    assert_eq!(client.id, "client_1");
    assert_eq!(client.request_count, 5);
    let change = key_change(" client_1 ", second);
    assert_eq!(change.id, "client_1");
    let rotated = |enabled: bool| StoredClient {
        key_prefix: change.key_prefix.clone(),
        key_hash: change.key_hash.clone(),
        ..stored(first, enabled)
    };
    assert!(authenticate(Some(rotated(true)), first).is_none());
    assert_eq!(
        authenticate(Some(rotated(true)), second).map(|client| client.id),
        Some("client_1".to_string())
    );
    assert!(authenticate(Some(rotated(false)), second).is_none());
    assert!(authenticate(Some(stored(second, true)), first).is_none());
    assert!(authenticate(Some(stored(second, true)), second).is_some());
    assert!(authenticate(Some(stored(first, false)), first).is_none());
    assert!(authenticate(Some(stored(first, true)), "  ").is_none());
    assert!(authenticate(None, first).is_none());
}

#[test]
fn models_of_clients_are_read_back() {
    let record = client_record(
        "Local app",
        &vec!["gpt-5.6".to_string(), "a \"b\"".to_string()],
        "client_1".to_string(),
        "cc_live_key",
    )
    .expect("record");
    assert_eq!(stored_models(&record.allowed_models), ["a \"b\"", "gpt-5.6"]);
    assert!(stored_models("no json").is_empty());
    assert!(stored_models("{}").is_empty());
    assert!(stored_models("[\"a\",1]").is_empty());
    assert!(stored_models("[]").is_empty());
}

#[test]
fn keys_and_ids_are_written_for_urls() {
    assert_eq!(api_key_from(&[0xfb, 0xff, 0xfe, 0x00]), "cc_live_-__-AA");
    assert_eq!(api_key_from(b"foobar"), "cc_live_Zm9vYmFy");
    assert_eq!(api_key_from(b"fooba"), "cc_live_Zm9vYmE");
    assert_eq!(client_id_at(-12, b"foobar"), "client_-12_zm9vymfy");
    let id = generate_client_id(7);
    assert!(id.starts_with("client_7_"));
    assert_eq!(id.len(), "client_7_".len() + 8);
}

#[test]
fn names_of_clients_are_checked() {
    assert_eq!(validate_client_name("  CLI ").expect("name"), "CLI");
    let empty = validate_client_name(" ").expect_err("empty");
    assert_eq!(empty.message_text(), "API client 名称不能为空");
    let long = validate_client_name(&"界".repeat(81)).expect_err("long");
    assert_eq!(long.message_text(), "API client 名称不能超过 80 个字符");
    assert!(validate_client_name(&"界".repeat(80)).is_ok());
}

#[test]
fn models_of_clients_are_put_in_order() {
    let models = |list: &[&str]| {
        normalize_models(&list.iter().map(|model| model.to_string()).collect())
    };
    assert_eq!(
        models(&[" b", "a", "", "b "]).expect("models"),
        vec!["a".to_string(), "b".to_string()]
    );
    let many: Vec<String> = (0..101).map(|index| format!("m{index}")).collect();
    let error = normalize_models(&many).expect_err("too many");
    assert_eq!(error.message_text(), "每个 API client 最多允许 100 个模型");
    let error = models(&["ok", &"x".repeat(161)]).expect_err("too long");
    assert_eq!(
        error.message_text(),
        format!("模型名称过长: {}", "x".repeat(161))
    );
}

#[test]
fn changes_need_a_client() {
    assert!(matches!(
        client_change(" ", "n", &Vec::new()),
        Err(ClientError::EmptyId)
    ));
    let change = client_change(" id ", " n ", &vec!["m".to_string()]).expect("change");
    assert_eq!((change.id.as_str(), change.name.as_str()), ("id", "n"));
    assert_eq!(change.allowed_models, "[\"m\"]");
    assert!(changed_client(1, "id").is_ok());
    assert_eq!(
        changed_client(0, "id").expect_err("none").message_text(),
        "unknown API client: id"
    );
}

#[test]
fn shares_are_whole_percent() {
    assert_eq!(percentage(2, 3), 66);
    assert_eq!(percentage(0, 0), 0);
    assert_eq!(percentage(5, 3), 100);
    assert_eq!(percentage(u64::MAX, u64::MAX), 1);
}

fn outcome(word: &str) -> RequestOutcome {
    RequestOutcome {
        time_is_valid: true,
        outcome: word.to_string(),
    }
}

#[test]
fn clients_fare_by_their_last_requests() {
    let idle = client_health(&Vec::new()).expect("health");
    assert_eq!(client_health_status(&idle, true), "idle");
    let health = client_health(&vec![
        outcome("processing"),
        outcome("failed"),
        outcome("rejected"),
        outcome("succeeded"),
        outcome("failed"),
    ])
    .expect("health");
    assert_eq!(health.last_request, Some(0));
    assert_eq!(health.last_failure, Some(1));
    assert_eq!(health.last_success, Some(3));
    assert_eq!(health.consecutive_failures, 2);
    assert_eq!(client_health_status(&health, true), "healthy");
    assert_eq!(client_health_status(&health, false), "disabled");
    let failing =
        client_health(&vec![outcome("failed"), outcome("failed"), outcome("failed")])
            .expect("health");
    assert_eq!(client_health_status(&failing, true), "degraded");
    let mut broken = vec![outcome("failed"), outcome("local")];
    broken[1].time_is_valid = false;
    assert_eq!(client_health(&broken), Err(1));
}

#[test]
fn periods_begin_on_monday_and_the_first() {
    assert_eq!(days_into_period(Period::Today, 3, 20), 0);
    assert_eq!(days_into_period(Period::Week, 3, 20), 3);
    assert_eq!(days_into_period(Period::Month, 3, 20), 19);
}

#[test]
fn times_are_written_and_read() {
    let time = UtcTime {
        seconds: 1_431_648_000,
        nanos: 453_829_000,
    };
    let written = timestamp(time).expect("written");
    assert_eq!(written, "2015-05-15T00:00:00.453Z");
    assert_eq!(
        parse_timestamp(&written),
        Ok(UtcTime {
            seconds: 1_431_648_000,
            nanos: 453_000_000
        })
    );
    assert!(parse_timestamp("soon")
        .expect_err("no time")
        .starts_with("无效时间戳 soon: "));
    assert_eq!(
        timestamp(UtcTime {
            seconds: i64::MAX,
            nanos: 0
        }),
        None
    );
}

#[test]
fn times_in_columns_say_why_they_cannot_be_read() {
    let time = parse_timestamp_sql("2026-01-02T03:04:05.006Z").expect("time");
    assert_eq!(time.nanos, 6_000_000);
    let reason = parse_timestamp_sql("soon").expect_err("no time");
    assert_eq!(
        parse_timestamp("soon").expect_err("no time"),
        format!("无效时间戳 soon: {reason}")
    );
}

#[test]
fn spans_are_kept_within_bounds() {
    let now = UtcTime {
        seconds: 1_000_000,
        nanos: 5,
    };
    assert_eq!(affinity_cutoff(now, 1).seconds, 999_940);
    assert_eq!(affinity_cutoff(now, u64::MAX).seconds, 1_000_000 - 86_400);
    assert_eq!(log_cutoff(now, 0).seconds, 1_000_000 - 86_400);
    assert_eq!(log_cutoff(now, 2).seconds, 1_000_000 - 172_800);
    assert_eq!(cooldown_until(now, 0).seconds, 1_000_001);
    assert_eq!(cooldown_until(now, u64::MAX).seconds, 1_086_400);
    assert_eq!(request_list_limit(0), 1);
    assert_eq!(request_list_limit(501), 500);
    let until = timestamp(cooldown_until(now, 60)).expect("written");
    assert_eq!(cooldown_active(&until, now), Ok(true));
    let later = UtcTime {
        seconds: 1_000_060,
        nanos: 5,
    };
    assert_eq!(cooldown_active(&until, later), Ok(false));
}

#[test]
fn errors_in_the_log_are_short() {
    assert_eq!(compact_log_error(" a \n b "), "a b");
    assert_eq!(compact_log_error(&"x".repeat(900)).len(), 800);
}

#[test]
fn stored_conversations_are_read_back() {
    assert!(read_stored_history("[]", "{}").is_ok());
    assert!(matches!(
        read_stored_history("[", "{}"),
        Err(StoredHistoryFault::Messages)
    ));
    assert!(matches!(
        read_stored_history("[]", "{"),
        Err(StoredHistoryFault::ToolContext)
    ));
}

#[test]
fn records_hold_what_the_log_needs() {
    let store = ApiServiceStore::from_config_store("/data");
    assert_eq!(store.path(), "/data/relay/api-service.sqlite3");
    assert_eq!(
        ApiServiceStore::from_config_store("/data/").clone().path(),
        "/data/relay/api-service.sqlite3"
    );
    let start = RequestLogStart {
        request_id: "request-1",
        method: "POST",
        path: "/v1/responses",
        model: Some("gpt-test"),
        client_id: None,
    };
    let finish = RequestLogFinish {
        request_id: start.request_id,
        provider_id: Some("provider-b"),
        status_code: Some(200),
        outcome: "succeeded",
        attempts: 2,
        latency_ms: 42,
        error: None,
    };
    let attempt = RequestAttemptStart {
        request_id: finish.request_id,
        attempt: 1,
        provider_id: "provider-a",
        route_reason: "policy",
    };
    let done = RequestAttemptFinish {
        request_id: attempt.request_id,
        attempt: attempt.attempt,
        status_code: Some(503),
        outcome: "failed",
        latency_ms: 12,
        error: Some("temporarily unavailable"),
    };
    assert_eq!(done.request_id, "request-1");
}

#[test]
fn successes_are_written_once_in_a_while() {
    let second = 1_000_000_000;
    let (step, claimed) = begin_health_success(None, 10 * second);
    assert_eq!(step, SuccessStep::Persist);
    assert_eq!(
        begin_health_success(claimed, 11 * second).0,
        SuccessStep::Skip
    );
    let settled = settle_health_success(claimed, 10 * second, true);
    let (step, unchanged) = begin_health_success(settled, 12 * second);
    assert_eq!(unchanged, settled);
    match step {
        SuccessStep::CheckHealth(observed) => {
            assert!(!claim_health_success(settled, observed, true, 12 * second).0);
            assert!(claim_health_success(settled, observed, false, 12 * second).0);
            assert!(!claim_health_success(None, observed, false, 12 * second).0);
        }
        other => panic!("{other:?}"),
    }
    assert_eq!(
        begin_health_success(settled, 25 * second).0,
        SuccessStep::Persist
    );
    assert_eq!(settle_health_success(claimed, 10 * second, false), None);
    assert_eq!(settle_health_success(settled, 99, true), settled);
}

#[test]
fn logs_are_rotated_and_read_by_whole_lines() {
    assert!(!begins_new_log(400, 111, 512));
    assert!(begins_new_log(400, 112, 512));
    assert_eq!(tail_start(1000, 512), 488);
    assert_eq!(tail_start(100, 512), 0);
    assert_eq!(keep_whole_lines(b"art\none\ntwo\n".to_vec(), 5), b"one\ntwo\n");
    assert_eq!(keep_whole_lines(b"one\n".to_vec(), 0), b"one\n");
    assert_eq!(keep_whole_lines(b"partial".to_vec(), 5), b"");
    assert_eq!(lines("a\r\nb\n\nc\r"), vec!["a", "b", "", "c\r"]);
    assert_eq!(log_lines("一\n二\n".as_bytes()), vec!["一", "二"]);
    assert!(log_lines(b"\xff\n").is_empty());
    assert_eq!(keep_last(vec![1, 2, 3], 2), vec![2, 3]);
    assert_eq!(keep_last(vec![1], 2), vec![1]);
    assert_eq!(diagnostic_level("error"), "error");
    assert_eq!(diagnostic_level("stream"), "info");
}

#[test]
fn event_log_rotation_keeps_recent_events_and_bounds_file_sizes() {
    let mut current: Vec<u8> = Vec::new();
    let mut backup: Vec<u8> = Vec::new();
    for index in 0..30 {
        let line = format!("{{\"message\":\"event-{index}-{}\"}}", "x".repeat(40));
        if begins_new_log(current.len() as u64, line.len(), 512) {
            let start = tail_start(current.len() as u64, 512);
            backup = keep_whole_lines(current[start as usize..].to_vec(), start);
            current.clear();
        }
        current.extend_from_slice(line.as_bytes());
        current.push(b'\n');
    }
    let mut events = log_lines(&backup);
    events.extend(log_lines(&current));
    let events = keep_last(events, 5);
    assert_eq!(events.len(), 5);
    assert!(events
        .last()
        .is_some_and(|event| event.contains("event-29")));
    assert!(current.len() <= 512);
    assert!(backup.len() <= 512);
}

#[test]
fn non_loopback_bind_requires_api_key() {
    let address = IpNumber::V4(0);
    assert!(validate_relay_bind_security(false, address, "0.0.0.0:1455").is_err());
    assert!(validate_relay_bind_security(true, address, "0.0.0.0:1455").is_ok());
    assert!(enforces_api_key(address));
}

#[test]
fn loopback_bind_does_not_require_api_key() {
    let address = IpNumber::V4(0x7f00_0001);
    assert!(validate_relay_bind_security(false, address, "127.0.0.1:1455").is_ok());
    assert!(validate_relay_bind_security(false, IpNumber::V6(1), "[::1]:1455").is_ok());
    assert!(!enforces_api_key(address));
}

#[test]
fn cors_accepts_only_loopback_browser_origins() {
    for origin in [
        "http://localhost:1420",
        "https://localhost",
        "http://127.0.0.1:3000",
        "http://[::1]:5173",
        "tauri://localhost",
    ] {
        assert!(
            browser_origin_is_loopback(Some(origin)),
            "loopback origin was rejected: {origin:?}"
        );
    }
    for origin in ["https://evil.example", "null", "https://192.168.1.2"] {
        assert!(
            !browser_origin_is_loopback(Some(origin)),
            "non-loopback origin was accepted: {origin:?}"
        );
    }
    assert!(!browser_origin_is_loopback(None));
}

#[test]
fn an_unsafe_address_is_named() {
    assert_eq!(
        validate_relay_bind_security(false, IpNumber::V4(0), "0.0.0.0:1"),
        Err(
            "refusing unauthenticated non-loopback relay bind at 0.0.0.0:1; enable require_api_key or bind to loopback"
                .to_string()
        )
    );
    let outcome = RelayStartOutcome {
        bind_addr: "127.0.0.1:1455".to_string(),
        base_url: "http://127.0.0.1:1455".to_string(),
    };
    assert_eq!(outcome.copy().bind_addr, outcome.bind_addr);
}

#[test]
fn accounts_are_reserved_up_to_their_limit() {
    let mut accounts = AccountConcurrency::new();
    assert_eq!(accounts.reserve("a", 1, LockStep::NotNeeded), Ok(true));
    assert_eq!(accounts.reserve("a", 1, LockStep::NotNeeded), Ok(false));
    assert_eq!(accounts.reserve("b", 1, LockStep::Full), Ok(false));
    assert_eq!(
        accounts.reserve("b", 1, LockStep::Failed),
        Err(AccountError::StorageUnavailable)
    );
    assert_eq!(accounts.reserve("b", 1, LockStep::Held), Ok(true));
    accounts.release("a");
    assert!(accounts.may_reserve("a", 1));
    assert!(!accounts.may_reserve("b", 1));
    assert_eq!(accounts.reserve("b", 0, LockStep::NotNeeded), Ok(true));
}

#[test]
fn locks_are_tried_in_turn() {
    assert_eq!(first_lock(true, 2), LockStep::TryFile(0));
    assert_eq!(first_lock(true, 0), LockStep::NotNeeded);
    assert_eq!(first_lock(false, 2), LockStep::NotNeeded);
    assert_eq!(next_lock(0, 2, LockOutcome::Busy), LockStep::TryFile(1));
    assert_eq!(next_lock(1, 2, LockOutcome::Busy), LockStep::Full);
    assert_eq!(next_lock(1, 2, LockOutcome::Held), LockStep::Held);
    assert_eq!(next_lock(1, 2, LockOutcome::Failed), LockStep::Failed);
    assert_eq!(lock_file(12), "12.lock");
    assert_eq!(
        lock_directory(""),
        "e3b0c44298fc1c149afbf4c8996fb92427ae41e4649b934ca495991b7852b855"
    );
}

#[test]
fn waiting_for_an_account_has_an_end() {
    let deadline = wait_deadline(1_000, 2_000);
    assert_eq!(deadline, 3_000);
    assert_eq!(wait_deadline(0, u64::MAX), 120_000);
    assert_eq!(
        wait_for_account(false, 2_000, 1_000, deadline, false, true),
        Err(AccountError::PolicyUnavailable)
    );
    assert_eq!(
        wait_for_account(true, 0, 1_000, deadline, false, true),
        Err(AccountError::Exceeded)
    );
    assert_eq!(
        wait_for_account(true, 2_000, 3_000, deadline, true, true),
        Err(AccountError::WaitTimeout)
    );
    assert_eq!(
        wait_for_account(true, 2_000, 1_000, deadline, false, false),
        Err(AccountError::QueueFull)
    );
    assert_eq!(
        wait_for_account(true, 2_000, 1_000, deadline, true, false),
        Ok(1_500)
    );
    assert_eq!(
        wait_for_account(true, 2_000, 2_900, deadline, true, true),
        Ok(3_000)
    );
    assert_eq!(next_eligible(&vec![false, true, true], 0), Some(1));
    assert_eq!(next_eligible(&vec![false, true], 2), None);
    assert_eq!(AccountError::Exceeded.code(), "account_concurrency_exceeded");
    assert_eq!(
        AccountError::WaitTimeout.code(),
        "account_concurrency_wait_timeout"
    );
}

#[test]
fn the_clock_is_past_the_year_two_thousand() {
    assert!(unix_now() > 946_684_800);
}

/// A provider whose health is written down.
#[derive(Default)]
struct WrittenHealth {
    checkpoint: Option<HealthSuccessCheckpoint>,
    healthy: Option<bool>,
    writes: usize,
}

impl WrittenHealth {
    fn record_success(&mut self, now: u128) -> bool {
        let (step, after) = begin_health_success(self.checkpoint, now);
        self.checkpoint = after;
        match step {
            SuccessStep::Skip => return false,
            SuccessStep::CheckHealth(observed) => {
                let healthy = self.healthy == Some(true);
                let (claimed, after) =
                    claim_health_success(self.checkpoint, observed, healthy, now);
                self.checkpoint = after;
                if !claimed {
                    return false;
                }
            }
            SuccessStep::Persist => {}
        }
        self.healthy = Some(true);
        self.writes += 1;
        self.checkpoint = settle_health_success(self.checkpoint, now, true);
        true
    }
}

#[test]
fn successful_health_writes_are_coalesced_until_a_failure() {
    let mut provider = WrittenHealth::default();
    assert!(provider.record_success(1));
    assert!(!provider.record_success(2));
    assert_eq!(provider.writes, 1);

    provider.checkpoint = None;
    provider.healthy = Some(false);
    assert!(provider.record_success(3));
    assert_eq!(provider.healthy, Some(true));
}

#[test]
fn success_persists_after_an_external_failure_write() {
    let mut provider = WrittenHealth::default();
    assert!(provider.record_success(1));

    provider.healthy = Some(false);

    assert!(provider.record_success(2));
    assert_eq!(provider.healthy, Some(true));
}
