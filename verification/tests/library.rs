use pg_resp::client::{
    after_failure, auth_verdict, classify_reply, closed_error, map_io, normalize_password,
    probe_verdict, ClientError,
};
use pg_resp::clock::Instant;
use pg_resp::dispatch::{dispatch, dispatch_word, parse_set_options, ConnState};
use pg_resp::glob::class_items;
use pg_resp::reply::Reply;
use pg_resp::scan::ScanRegistry;
use pg_resp::server::{
    budget_from_settings, flush_step, interest_update, keep_after_flush, loopback_target,
    over_write_limit, service_step, watchdog_step, FlushOutcome, StepOutcome, WriteResult,
    MAX_PENDING_WRITE_BYTES,
};
use pg_resp::sql::{
    bulk_to_text, check_evict_args, check_set_ttl, evict_keys, interpret_exists, interpret_keys,
    interpret_ttl, op_command_args, read_error_report, stats_from_info, ApplyTally, CommitQueue,
    QueuedOp, SqlErrorKind, TextOutcome,
};
use pg_resp::store::{Condition, Expiry, Store, PER_ENTRY_OVERHEAD_BYTES};

fn t0() -> Instant {
    Instant::from_nanos(5_000_000_000_000)
}

fn run(store: &mut Store, conn: &mut ConnState, password: Option<&[u8]>, args: &[&[u8]]) -> Reply {
    let a: Vec<Vec<u8>> = args.iter().map(|s| s.to_vec()).collect();
    dispatch(store, 1_700_000_000_000, t0(), &a, conn, password, 0)
}

// --- dispatch ---

#[test]
fn command_words_are_case_insensitive() {
    let mut s = Store::new();
    let mut c = ConnState::default();
    assert_eq!(run(&mut s, &mut c, None, &[b"set", b"k", b"v"]), Reply::ok());
    assert_eq!(run(&mut s, &mut c, None, &[b"gEt", b"k"]), Reply::bulk(b"v"));
}

#[test]
fn unicode_upper_casing_applies_to_command_words() {
    // U+017F LATIN SMALL LETTER LONG S upper-cases to 'S'.
    let mut s = Store::new();
    let mut c = ConnState::default();
    let word = "\u{17f}et".as_bytes();
    assert_eq!(run(&mut s, &mut c, None, &[word, b"k", b"v"]), Reply::ok());
    assert_eq!(run(&mut s, &mut c, None, &[b"GET", b"k"]), Reply::bulk(b"v"));
}

#[test]
fn unknown_command_quotes_the_name_lossily() {
    let mut s = Store::new();
    let mut c = ConnState::default();
    let r = run(&mut s, &mut c, None, &[b"NOPE\xff"]);
    let mut want = b"ERR unknown command 'NOPE".to_vec();
    want.extend_from_slice("\u{fffd}".as_bytes());
    want.push(b'\'');
    assert_eq!(r, Reply::Error(want));
}

#[test]
fn empty_command_is_an_empty_array() {
    let mut s = Store::new();
    let mut c = ConnState::default();
    assert_eq!(run(&mut s, &mut c, None, &[]), Reply::Array(Some(vec![])));
}

#[test]
fn only_the_right_password_authenticates() {
    let mut s = Store::new();
    let mut c = ConnState::default();
    let pw: &[u8] = b"secret";
    assert_eq!(
        run(&mut s, &mut c, Some(pw), &[b"GET", b"k"]),
        Reply::error(b"NOAUTH Authentication required.")
    );
    assert!(!c.authenticated);
    run(&mut s, &mut c, Some(pw), &[b"AUTH", b"secre"]);
    assert!(!c.authenticated);
    run(&mut s, &mut c, Some(pw), &[b"AUTH", b"secret", b"extra"]);
    assert!(!c.authenticated);
    assert_eq!(run(&mut s, &mut c, Some(pw), &[b"AUTH", b"secret"]), Reply::ok());
    assert!(c.authenticated);
    assert_eq!(run(&mut s, &mut c, Some(pw), &[b"GET", b"k"]), Reply::nil());
}

#[test]
fn info_text_is_exact() {
    let mut s = Store::with_max_memory(1000);
    let mut c = ConnState::default();
    run(&mut s, &mut c, None, &[b"SET", b"a", b"1"]);
    run(&mut s, &mut c, None, &[b"GET", b"a"]);
    run(&mut s, &mut c, None, &[b"GET", b"b"]);
    let a: Vec<Vec<u8>> = vec![b"INFO".to_vec()];
    let r = dispatch(&mut s, 0, t0(), &a, &mut c, None, 7);
    let text = "# Server\r\nredis_version:7.0.0\r\npg_resp_version:0.1.0\r\n# Memory\r\nused_memory:98\r\nmaxmemory:1000\r\n# Stats\r\nkeyspace_hits:1\r\nkeyspace_misses:1\r\nevicted_keys:0\r\ninvalidations_lost:7\r\n# Keyspace\r\ndb0:keys=1\r\n";
    assert_eq!(r, Reply::bulk(text.as_bytes()));
}

#[test]
fn stats_read_back_from_info_match_the_store() {
    let mut s = Store::new();
    let mut c = ConnState::default();
    run(&mut s, &mut c, None, &[b"SET", b"a", b"1"]);
    run(&mut s, &mut c, None, &[b"SET", b"bb", b"22"]);
    run(&mut s, &mut c, None, &[b"GET", b"a"]);
    let a: Vec<Vec<u8>> = vec![b"INFO".to_vec()];
    let r = dispatch(&mut s, 0, t0(), &a, &mut c, None, 3);
    let row = stats_from_info(&r).unwrap();
    let st = s.stats();
    assert_eq!(row.keys, st.keys as i64);
    assert_eq!(row.used_bytes, st.used_bytes as i64);
    assert_eq!(row.max_memory_bytes, 0);
    assert_eq!(row.keyspace_hits, 1);
    assert_eq!(row.keyspace_misses, 0);
    assert_eq!(row.evicted_keys, 0);
    assert_eq!(row.invalidations_lost, 3);
}

#[test]
fn decrby_of_the_minimum_is_refused() {
    let mut s = Store::new();
    let mut c = ConnState::default();
    assert_eq!(
        run(&mut s, &mut c, None, &[b"DECRBY", b"n", b"-9223372036854775808"]),
        Reply::error(b"ERR decrement would overflow")
    );
    assert_eq!(
        run(&mut s, &mut c, None, &[b"INCRBY", b"n", b"x"]),
        Reply::error(b"ERR value is not an integer or out of range")
    );
}

#[test]
fn getex_options_and_errors() {
    let mut s = Store::new();
    let mut c = ConnState::default();
    run(&mut s, &mut c, None, &[b"SET", b"k", b"v"]);
    assert_eq!(run(&mut s, &mut c, None, &[b"GETEX", b"k", b"PX", b"1500"]), Reply::bulk(b"v"));
    assert_eq!(run(&mut s, &mut c, None, &[b"PTTL", b"k"]), Reply::Integer(1500));
    assert_eq!(
        run(&mut s, &mut c, None, &[b"GETEX", b"k", b"PERSIST", b"x"]),
        Reply::error(b"ERR syntax error")
    );
    assert_eq!(
        run(&mut s, &mut c, None, &[b"GETEX", b"k", b"EX", b"0"]),
        Reply::error(b"ERR invalid expire time in 'getex' command")
    );
}

#[test]
fn set_exat_in_the_past_expires_at_once() {
    let mut s = Store::new();
    let mut c = ConnState::default();
    assert_eq!(run(&mut s, &mut c, None, &[b"SET", b"k", b"v", b"EXAT", b"1"]), Reply::ok());
    assert_eq!(run(&mut s, &mut c, None, &[b"GET", b"k"]), Reply::nil());
    assert_eq!(run(&mut s, &mut c, None, &[b"SET", b"k", b"v", b"PXAT", b"1700000002500"]), Reply::ok());
    assert_eq!(run(&mut s, &mut c, None, &[b"PTTL", b"k"]), Reply::Integer(2500));
}

#[test]
fn scan_options_errors() {
    let mut s = Store::new();
    let mut c = ConnState::default();
    assert_eq!(run(&mut s, &mut c, None, &[b"SCAN", b"x"]), Reply::error(b"ERR invalid cursor"));
    assert_eq!(run(&mut s, &mut c, None, &[b"SCAN", b"0", b"COUNT"]),
        Reply::error(b"ERR value is not an integer or out of range"));
    assert_eq!(run(&mut s, &mut c, None, &[b"SCAN", b"0", b"COUNT", b"0"]), Reply::error(b"ERR syntax error"));
    assert_eq!(run(&mut s, &mut c, None, &[b"SCAN", b"0", b"MATCH"]), Reply::error(b"ERR syntax error"));
}

// --- store laws on concrete values ---

#[test]
fn budget_holds_within_one_entry() {
    let budget = 1000;
    let mut s = Store::with_max_memory(budget);
    let now = t0();
    for i in 0..200u32 {
        let key = format!("key{}", i % 37).into_bytes();
        let value = vec![b'x'; (i as usize * 7) % 90];
        let cost = key.len() + value.len() + PER_ENTRY_OVERHEAD_BYTES;
        s.set(now, &key, value, Expiry::Never, Condition::Always, false);
        assert!(s.used_bytes() <= budget + cost);
        assert!(s.used_bytes() <= budget || s.len() == 1);
    }
    assert!(s.stats().evictions > 0);
}

#[test]
fn without_a_budget_writes_elsewhere_keep_a_key() {
    let mut s = Store::new();
    let now = t0();
    s.set(now, b"target", b"1".to_vec(), Expiry::Never, Condition::Always, false);
    for i in 0..50 {
        s.set(now, format!("other{i}").as_bytes(), vec![b'y'; i], Expiry::Never, Condition::Always, false);
        assert_eq!(s.get(now, b"target"), Some(&b"1"[..]));
    }
    assert_eq!(s.stats().evictions, 0);
}

#[test]
fn increments_add_up() {
    let mut s = Store::new();
    let now = t0();
    let mut sum: i64 = 0;
    for d in [5i64, -3, 100, -250, 7] {
        sum += d;
        assert_eq!(s.incr_by(now, b"n", d), Ok(sum));
    }
    assert_eq!(s.get(now, b"n"), Some(sum.to_string().as_bytes()));
}

#[test]
fn expiry_at_the_deadline_itself() {
    let mut s = Store::new();
    let now = t0();
    let d = now.plus_millis(10);
    s.set(now, b"k", b"v".to_vec(), Expiry::At(d), Condition::Always, false);
    assert_eq!(s.get(now.plus_millis(9), b"k"), Some(&b"v"[..]));
    assert_eq!(s.get(d, b"k"), None);
    assert_eq!(s.len(), 0);
}

#[test]
fn del_counts_repeated_keys_once() {
    let mut s = Store::new();
    let now = t0();
    s.set(now, b"a", b"1".to_vec(), Expiry::Never, Condition::Always, false);
    assert_eq!(s.del(now, &[b"a", b"a", b"b"]), 1);
    assert_eq!(s.used_bytes(), 0);
}

#[test]
fn active_sweep_with_a_full_sample_drops_every_expired_key() {
    let mut s = Store::new();
    let now = t0();
    for i in 0..10u64 {
        let e = if i % 2 == 0 { Expiry::At(now.plus_millis(1)) } else { Expiry::Never };
        s.set(now, format!("k{i}").as_bytes(), b"v".to_vec(), e, Condition::Always, false);
    }
    assert_eq!(s.active_expire_sweep(now.plus_millis(5), 3), 2);
    assert_eq!(s.active_expire_sweep(now.plus_millis(5), 100), 3);
    assert_eq!(s.len(), 5);
}

#[test]
fn random_key_on_empty_and_non_empty() {
    let mut s = Store::new();
    let now = t0();
    assert_eq!(s.random_key(now), None);
    s.set(now, b"only", b"v".to_vec(), Expiry::Never, Condition::Always, false);
    assert_eq!(s.random_key(now), Some(b"only".to_vec()));
}

#[test]
fn random_key_skips_expired_entries() {
    let mut s = Store::new();
    let now = t0();
    s.set(now, b"a", b"1".to_vec(), Expiry::At(now.plus_millis(1)), Condition::Always, false);
    s.set(now, b"b", b"2".to_vec(), Expiry::At(now.plus_millis(1)), Condition::Always, false);
    let later = now.plus_millis(5);
    assert_eq!(s.random_key(later), None);
    assert_eq!(s.len(), 0);
    s.set(later, b"c", b"3".to_vec(), Expiry::At(later.plus_millis(1)), Condition::Always, false);
    s.set(later, b"d", b"4".to_vec(), Expiry::Never, Condition::Always, false);
    assert_eq!(s.random_key(later.plus_millis(5)), Some(b"d".to_vec()));
    assert_eq!(s.len(), 1);
}

#[test]
fn sweep_removes_expired_keys_in_its_sample() {
    let mut s = Store::new();
    let now = t0();
    for i in 0..30u8 {
        s.set(now, &[b'k', i], b"v".to_vec(), Expiry::At(now.plus_millis(1)), Condition::Always, false);
    }
    assert_eq!(s.active_expire_sweep(now.plus_millis(5), 20), 20);
    assert_eq!(s.len(), 10);
}

#[test]
fn mset_within_budget_evicts_nothing() {
    let mut s = Store::with_max_memory(10 * (PER_ENTRY_OVERHEAD_BYTES + 2));
    let now = t0();
    s.set(now, b"a", b"1".to_vec(), Expiry::Never, Condition::Always, false);
    s.mset(&[(&b"b"[..], b"2".to_vec()), (&b"c"[..], b"3".to_vec())]);
    assert_eq!(s.len(), 3);
    assert_eq!(s.stats().evictions, 0);
}

#[test]
fn dispatch_word_runs_the_named_command() {
    let mut s = Store::new();
    let mut c = ConnState::default();
    let a: Vec<Vec<u8>> = vec![b"set".to_vec(), b"k".to_vec(), b"v".to_vec()];
    let r = dispatch_word(&mut s, 0, t0(), &"SET".to_string(), &a, &mut c, None, 0);
    assert_eq!(r, Reply::ok());
    let g: Vec<Vec<u8>> = vec![b"get".to_vec(), b"k".to_vec()];
    assert_eq!(dispatch_word(&mut s, 0, t0(), &"GET".to_string(), &g, &mut c, None, 0), Reply::bulk(b"v"));
    let mut locked = ConnState::default();
    assert_eq!(
        dispatch_word(&mut s, 0, t0(), &"GET".to_string(), &g, &mut locked, Some(&b"pw"[..]), 0),
        Reply::error(&b"NOAUTH Authentication required."[..])
    );
}

#[test]
fn mset_under_a_budget_keeps_the_last_pair() {
    let mut s = Store::with_max_memory(PER_ENTRY_OVERHEAD_BYTES + 4);
    s.mset(&[(&b"a"[..], b"1".to_vec()), (&b"b"[..], b"2".to_vec()), (&b"c"[..], b"3".to_vec())]);
    assert_eq!(s.len(), 1);
    assert_eq!(s.get(t0(), b"c"), Some(&b"3"[..]));
}

// --- scan ---

#[test]
fn pages_and_remaining_cover_the_snapshot() {
    let mut reg = ScanRegistry::new();
    let now = t0();
    let keys: Vec<Vec<u8>> = (0..10).map(|i| vec![b'a' + i as u8]).collect();
    let k2 = keys.clone();
    let (c1, p1) = reg.scan(now, 0, 4, move || k2);
    assert_eq!(p1, keys[0..4].to_vec());
    let (c2, p2) = reg.scan(now, c1, 4, Vec::new);
    assert_eq!(c2, c1);
    assert_eq!(p2, keys[4..8].to_vec());
    let (c3, p3) = reg.scan(now, c2, 4, Vec::new);
    assert_eq!(c3, 0);
    assert_eq!(p3, keys[8..10].to_vec());
    assert_eq!(reg.live_cursor_count(), 0);
}

#[test]
fn count_zero_still_makes_progress() {
    let mut reg = ScanRegistry::new();
    let (c, p) = reg.scan(t0(), 0, 0, || vec![b"x".to_vec(), b"y".to_vec()]);
    assert!(c != 0);
    assert_eq!(p, vec![b"x".to_vec()]);
}

// --- commit queue ---

fn put(k: &str) -> QueuedOp {
    QueuedOp::Put { key: k.to_string(), value: "v".to_string(), ttl_seconds: None }
}

fn keys_of(items: &[pg_resp::sql::QueuedItem]) -> Vec<(u32, String)> {
    items
        .iter()
        .map(|it| {
            let k = match &it.op {
                QueuedOp::Put { key, .. } => key.clone(),
                QueuedOp::Del { key } => key.clone(),
            };
            (it.subxid, k)
        })
        .collect()
}

#[test]
fn rollback_discards_everything() {
    let mut q = CommitQueue::new();
    q.enqueue(1, put("a"));
    q.enqueue(2, put("b"));
    q.abort();
    assert_eq!(q.len(), 0);
    assert!(q.take_for_commit().is_empty());
}

#[test]
fn savepoint_rollback_drops_only_its_writes() {
    let mut q = CommitQueue::new();
    q.enqueue(1, put("a"));
    q.enqueue(2, put("b"));
    q.enqueue(3, put("c"));
    q.enqueue(1, put("d"));
    q.abort_sub(2);
    assert_eq!(keys_of(&q.take_for_commit()), vec![(1, "a".to_string()), (1, "d".to_string())]);
}

#[test]
fn released_savepoint_follows_its_parent() {
    let mut q = CommitQueue::new();
    q.enqueue(1, put("a"));
    q.enqueue(2, QueuedOp::Del { key: "b".to_string() });
    q.commit_sub(2, 1);
    q.enqueue(2, put("c"));
    assert_eq!(q.len(), 3);
    q.abort_sub(1);
    assert_eq!(q.len(), 0);
}

#[test]
fn queued_commands_are_exact() {
    let set = QueuedOp::Put { key: "k".to_string(), value: "é".to_string(), ttl_seconds: Some(-5) };
    assert_eq!(
        op_command_args(&set),
        vec![b"SET".to_vec(), b"k".to_vec(), "é".as_bytes().to_vec(), b"EX".to_vec(), b"-5".to_vec()]
    );
    assert_eq!(
        op_command_args(&QueuedOp::Del { key: "x".to_string() }),
        vec![b"DEL".to_vec(), b"x".to_vec()]
    );
}

#[test]
fn apply_tally_counts_and_keeps_the_first_error() {
    let mut t = ApplyTally::new();
    t.record(Ok(()));
    assert_eq!(t.lost_message(3), None);
    t.record(Err("first".to_string()));
    t.record(Err("second".to_string()));
    assert_eq!(t.failed, 2);
    assert_eq!(
        t.lost_message(3),
        Some("pg_resp lost 2 of 3 cache invalidation(s) at commit: first".to_string())
    );
}

// --- SQL reply reading ---

#[test]
fn bulk_to_text_cases() {
    assert!(matches!(bulk_to_text(Reply::nil()), TextOutcome::Null));
    match bulk_to_text(Reply::bulk("héllo".as_bytes())) {
        TextOutcome::Text(s) => assert_eq!(s, "héllo"),
        _ => panic!("expected text"),
    }
    assert!(matches!(bulk_to_text(Reply::bulk(b"a\0b")), TextOutcome::NotText));
    assert!(matches!(bulk_to_text(Reply::bulk(b"\xff")), TextOutcome::NotText));
    assert!(matches!(bulk_to_text(Reply::Integer(1)), TextOutcome::Unexpected));
}

#[test]
fn reply_readers() {
    assert_eq!(interpret_exists(&Reply::Integer(2)), Some(true));
    assert_eq!(interpret_exists(&Reply::Integer(0)), Some(false));
    assert_eq!(interpret_exists(&Reply::nil()), None);
    assert_eq!(interpret_ttl(&Reply::Integer(-2)), Some(-2));
    assert_eq!(interpret_ttl(&Reply::ok()), None);
    let keys = Reply::Array(Some(vec![Reply::bulk(b"a"), Reply::Integer(1), Reply::bulk(b"\xff")]));
    assert_eq!(
        interpret_keys(&keys),
        Some(vec!["a".to_string(), String::new(), "\u{fffd}".to_string()])
    );
    assert_eq!(interpret_keys(&Reply::Array(None)), Some(vec![]));
    assert_eq!(interpret_keys(&Reply::Integer(0)), None);
}

#[test]
fn evict_keys_dedup() {
    assert_eq!(
        evict_keys("p:", Some("1".to_string()), Some("1".to_string())),
        vec!["p:1".to_string()]
    );
    assert_eq!(
        evict_keys("p:", Some("1".to_string()), Some("2".to_string())),
        vec!["p:1".to_string(), "p:2".to_string()]
    );
    assert_eq!(evict_keys("p:", None, Some("2".to_string())), vec!["p:2".to_string()]);
    assert!(evict_keys("p:", None, None).is_empty());
}

#[test]
fn sql_argument_checks() {
    assert_eq!(check_set_ttl(None), Ok(()));
    assert_eq!(check_set_ttl(Some(5)), Ok(()));
    assert_eq!(check_set_ttl(Some(0)), Err("invalid expire time in resp.set(): 0".to_string()));
    assert_eq!(check_set_ttl(Some(-12)), Err("invalid expire time in resp.set(): -12".to_string()));
    assert_eq!(check_evict_args(2), Ok(()));
    assert_eq!(
        check_evict_args(3),
        Err("resp.evict() requires exactly 2 trigger arguments, got 3".to_string())
    );
}

#[test]
fn read_error_kinds() {
    let (k, m) = read_error_report(&ClientError::Server("ERR x".to_string()));
    assert!(matches!(k, SqlErrorKind::Internal));
    assert_eq!(m, "pg_resp cache rejected the request: ERR x");
    let (k, m) = read_error_report(&ClientError::Auth("no".to_string()));
    assert!(matches!(k, SqlErrorKind::InsufficientPrivilege));
    assert_eq!(m, "pg_resp authentication failed: no");
    let (k, m) = read_error_report(&ClientError::Timeout);
    assert!(matches!(k, SqlErrorKind::ConnectionFailure));
    assert_eq!(m, "could not reach the pg_resp cache: timed out waiting for a reply");
}

// --- client decisions ---

#[test]
fn retry_only_a_reused_connection_before_any_reply() {
    let io = || std::io::Error::new(std::io::ErrorKind::ConnectionReset, "reset");
    assert!(after_failure(true, &ClientError::Io(io())).retry);
    assert!(after_failure(true, &ClientError::Closed).retry);
    assert!(after_failure(true, &ClientError::Connect(io())).retry);
    assert!(!after_failure(false, &ClientError::Closed).retry);
    assert!(!after_failure(true, &ClientError::Timeout).retry);
    assert!(!after_failure(true, &ClientError::Protocol("p".to_string())).retry);
    let d = after_failure(true, &ClientError::Server("ERR".to_string()));
    assert!(!d.retry && !d.drop_connection);
    assert!(after_failure(false, &ClientError::Timeout).drop_connection);
}

#[test]
fn probe_counts_error_replies_as_alive() {
    assert!(probe_verdict(Ok(Reply::simple(b"PONG"))).is_ok());
    assert!(probe_verdict(Err(ClientError::Server("NOAUTH".to_string()))).is_ok());
    assert!(matches!(probe_verdict(Err(ClientError::Timeout)), Err(ClientError::Timeout)));
}

#[test]
fn error_replies_become_server_errors() {
    match classify_reply(Reply::Error(b"ERR \xffx".to_vec())) {
        Err(ClientError::Server(m)) => assert_eq!(m, "ERR \u{fffd}x"),
        other => panic!("unexpected {other:?}"),
    }
    assert_eq!(classify_reply(Reply::Integer(3)).ok(), Some(Reply::Integer(3)));
}

#[test]
fn closes_and_socket_errors() {
    assert!(matches!(closed_error(false), ClientError::Closed));
    match closed_error(true) {
        ClientError::Protocol(m) => assert_eq!(m, "server closed the connection mid-reply"),
        other => panic!("unexpected {other:?}"),
    }
    let t = std::io::Error::new(std::io::ErrorKind::TimedOut, "t");
    assert!(matches!(map_io(true, t), ClientError::Timeout));
    let w = std::io::Error::new(std::io::ErrorKind::WouldBlock, "w");
    assert!(matches!(map_io(false, w), ClientError::Timeout));
    let r = std::io::Error::new(std::io::ErrorKind::ConnectionReset, "reset");
    match map_io(true, r) {
        ClientError::Protocol(m) => {
            assert_eq!(m, "connection failed after a partial reply had arrived: reset")
        }
        other => panic!("unexpected {other:?}"),
    }
    let r = std::io::Error::new(std::io::ErrorKind::ConnectionReset, "reset");
    match map_io(false, r) {
        ClientError::Io(e) => assert_eq!(e.message_kind(), std::io::ErrorKind::ConnectionReset),
        other => panic!("unexpected {other:?}"),
    }
}

trait Kind {
    fn message_kind(&self) -> std::io::ErrorKind;
}

impl Kind for std::io::Error {
    fn message_kind(&self) -> std::io::ErrorKind {
        self.kind()
    }
}

#[test]
fn auth_verdicts() {
    assert!(auth_verdict(Ok(Reply::ok())).is_ok());
    match auth_verdict(Err(ClientError::Server("WRONGPASS x".to_string()))) {
        Err(ClientError::Auth(m)) => assert_eq!(m, "WRONGPASS x"),
        other => panic!("unexpected {other:?}"),
    }
    match auth_verdict(Ok(Reply::Integer(1))) {
        Err(ClientError::Auth(m)) => assert_eq!(m, "unexpected AUTH reply: Integer(1)"),
        other => panic!("unexpected {other:?}"),
    }
    assert!(matches!(auth_verdict(Err(ClientError::Closed)), Err(ClientError::Closed)));
}

#[test]
fn error_messages() {
    assert_eq!(ClientError::Timeout.message(), "timed out waiting for a reply");
    assert_eq!(ClientError::Closed.message(), "server closed the connection");
    assert_eq!(ClientError::Protocol("x".to_string()).message(), "protocol error: x");
    assert_eq!(ClientError::Server("ERR y".to_string()).message(), "ERR y");
    assert_eq!(ClientError::Auth("z".to_string()).message(), "authentication failed: z");
    let e = std::io::Error::new(std::io::ErrorKind::Other, "boom");
    assert_eq!(ClientError::Io(e).message(), "socket error: boom");
    assert!(ClientError::Server(String::new()).is_fatal_to_connection() == false);
    assert!(ClientError::Closed.is_fatal_to_connection());
}

#[test]
fn empty_password_means_none() {
    assert_eq!(normalize_password(Some(vec![])), None);
    assert_eq!(normalize_password(Some(b"p".to_vec())), Some(b"p".to_vec()));
    assert_eq!(normalize_password(None), None);
}

// --- server decisions ---

#[test]
fn loopback_targets() {
    let t = |b: Option<&str>| loopback_target(b.map(|s| s.to_string()), 6379, Some(vec![])).0;
    assert_eq!(t(None), "127.0.0.1:6379");
    assert_eq!(t(Some("0.0.0.0")), "127.0.0.1:6379");
    assert_eq!(t(Some("")), "127.0.0.1:6379");
    assert_eq!(t(Some("::")), "[::1]:6379");
    assert_eq!(t(Some("[::]")), "[::1]:6379");
    assert_eq!(t(Some("fe80::2")), "[fe80::2]:6379");
    assert_eq!(t(Some("[fe80::2]")), "[fe80::2]:6379");
    assert_eq!(t(Some("10.0.0.5")), "10.0.0.5:6379");
    assert_eq!(loopback_target(None, 7000, Some(b"pw".to_vec())).1, Some(b"pw".to_vec()));
    assert_eq!(loopback_target(None, 7000, Some(vec![])).1, None);
}

#[test]
fn budgets_from_settings() {
    assert_eq!(budget_from_settings(256, &"clock_lru".to_string()), Some(256 * 1024 * 1024));
    assert_eq!(budget_from_settings(0, &"clock_lru".to_string()), None);
    assert_eq!(budget_from_settings(-1, &"clock_lru".to_string()), None);
    assert_eq!(budget_from_settings(256, &"noeviction".to_string()), None);
}

#[test]
fn service_steps_over_a_pipeline() {
    let mut store = Store::new();
    let mut conn = ConnState::default();
    let mut read = b"*3\r\n$3\r\nSET\r\n$1\r\nk\r\n$1\r\nv\r\nGET k\r\n\r\nquit\r\nPING\r\n".to_vec();
    let mut write = Vec::new();
    let step = |r: &mut Vec<u8>, w: &mut Vec<u8>, s: &mut Store, c: &mut ConnState| {
        service_step(r, w, s, c, None, 0, 0, t0())
    };
    assert_eq!(step(&mut read, &mut write, &mut store, &mut conn), StepOutcome::Continue);
    assert_eq!(write, b"+OK\r\n");
    assert_eq!(step(&mut read, &mut write, &mut store, &mut conn), StepOutcome::Continue);
    assert_eq!(write, b"+OK\r\n$1\r\nv\r\n");
    assert_eq!(step(&mut read, &mut write, &mut store, &mut conn), StepOutcome::Continue);
    assert_eq!(step(&mut read, &mut write, &mut store, &mut conn), StepOutcome::Close);
    assert_eq!(write, b"+OK\r\n$1\r\nv\r\n+OK\r\n");
    assert_eq!(read, b"PING\r\n");
}

#[test]
fn service_step_reports_protocol_errors_and_waits_for_more() {
    let mut store = Store::new();
    let mut conn = ConnState::default();
    let mut read = b"*1\r\n$4\r\nPI".to_vec();
    let mut write = Vec::new();
    assert_eq!(
        service_step(&mut read, &mut write, &mut store, &mut conn, None, 0, 0, t0()),
        StepOutcome::NeedMore
    );
    assert!(write.is_empty());
    let mut bad = b"*-5\r\n".to_vec();
    assert_eq!(
        service_step(&mut bad, &mut write, &mut store, &mut conn, None, 0, 0, t0()),
        StepOutcome::Close
    );
    assert!(write.starts_with(b"-ERR Protocol error: "));
}

#[test]
fn output_and_flush_decisions() {
    assert!(!over_write_limit(MAX_PENDING_WRITE_BYTES, 0));
    assert!(over_write_limit(MAX_PENDING_WRITE_BYTES + 11, 10));
    assert_eq!(flush_step(0, 10, WriteResult::Wrote(4)), Ok(4));
    assert_eq!(flush_step(4, 10, WriteResult::Wrote(0)), Err(FlushOutcome::Failed));
    assert_eq!(flush_step(4, 10, WriteResult::WouldBlock), Err(FlushOutcome::Pending));
    assert_eq!(flush_step(4, 10, WriteResult::Interrupted), Ok(4));
    assert_eq!(flush_step(4, 10, WriteResult::Failed), Err(FlushOutcome::Failed));
    assert!(keep_after_flush(FlushOutcome::Drained, false));
    assert!(!keep_after_flush(FlushOutcome::Drained, true));
    assert!(keep_after_flush(FlushOutcome::Pending, true));
    assert!(!keep_after_flush(FlushOutcome::Failed, false));
    assert_eq!(interest_update(0, 5, false), Some(true));
    assert_eq!(interest_update(5, 5, true), Some(false));
    assert_eq!(interest_update(0, 5, true), None);
}

#[test]
fn watchdog_strikes() {
    assert_eq!(watchdog_step(0, false), (1, false));
    assert_eq!(watchdog_step(1, false), (2, false));
    assert_eq!(watchdog_step(2, false), (3, true));
    assert_eq!(watchdog_step(2, true), (0, false));
}

#[test]
fn set_options_read_in_any_order() {
    let now = t0();
    let o: Vec<Vec<u8>> = vec![b"get".to_vec(), b"ex".to_vec(), b"10".to_vec(), b"NX".to_vec()];
    match parse_set_options(1_700_000_000_000, now, &o) {
        Ok(opts) => {
            assert_eq!(opts.expiry, Some(Expiry::At(now.plus_secs(10))));
            assert_eq!(opts.condition, Condition::IfNotExists);
            assert!(opts.want_get);
        }
        Err(r) => panic!("unexpected error {r:?}"),
    }
    let bad: Vec<Vec<u8>> = vec![b"PX".to_vec(), b"0".to_vec()];
    assert!(matches!(
        parse_set_options(0, now, &bad),
        Err(r) if r == Reply::error(&b"ERR invalid expire time in 'set' command"[..])
    ));
}

#[test]
fn glob_class_items_handle_ranges_both_ways() {
    assert_eq!(class_items(b"a-c]x", 0, Some(b'b')), (true, 4));
    assert_eq!(class_items(b"c-a]x", 0, Some(b'b')), (true, 4));
    assert_eq!(class_items(b"a-c]x", 0, Some(b'z')), (false, 4));
}

#[test]
fn debug_string_matches_derived_debug() {
    let rs = vec![
        Reply::ok(),
        Reply::error(&b""[..]),
        Reply::Integer(-42),
        Reply::Integer(i64::MIN),
        Reply::Integer(7),
        Reply::Bulk(None),
        Reply::bulk(&b"hi\r\n\0\xff"[..]),
        Reply::Array(None),
        Reply::Array(Some(vec![])),
        Reply::Array(Some(vec![
            Reply::Integer(1),
            Reply::Bulk(None),
            Reply::Array(Some(vec![Reply::simple(&b"x"[..])])),
        ])),
    ];
    for r in rs {
        assert_eq!(r.debug_string(), format!("{:?}", r));
    }
}

#[test]
fn ttl_of_a_very_far_deadline() {
    let mut s = Store::new();
    let mut c = ConnState::default();
    assert_eq!(run(&mut s, &mut c, None, &[b"SET", b"k", b"v", b"EX", b"9300000000000000"]), Reply::ok());
    assert_eq!(run(&mut s, &mut c, None, &[b"TTL", b"k"]), Reply::Integer(9_300_000_000_000_000));
    assert_eq!(run(&mut s, &mut c, None, &[b"PTTL", b"k"]), Reply::Integer(i64::MAX));
}

#[test]
fn scan_with_writes_between_pages_misses_no_stable_key() {
    let mut s = Store::new();
    let now = t0();
    for i in 0..10u8 {
        s.set(now, &[b'k', i], b"v".to_vec(), Expiry::Never, Condition::Always, false);
    }
    let mut seen: Vec<Vec<u8>> = Vec::new();
    let mut cursor = 0u64;
    let mut round = 0u8;
    loop {
        let (next, page) = s.scan(now, cursor, 3);
        seen.extend(page);
        s.set(now, &[b'n', round], b"v".to_vec(), Expiry::Never, Condition::Always, false);
        s.del(now, &[&[b'k', 9][..]]);
        round += 1;
        cursor = next;
        if cursor == 0 {
            break;
        }
    }
    for i in 0..9u8 {
        assert!(seen.contains(&vec![b'k', i]));
    }
}
