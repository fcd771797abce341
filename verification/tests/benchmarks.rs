use rhydadb::args::{parse_args, parse_storage_args, ArgError};
use rhydadb::client::{
    execute_body, frame, is_insert, pick_key, prepared_id, query_body, seed, startup_body,
    write_long_string, xorshift, ConnCtx, Mode, Workload,
};
use rhydadb::health::health_response;

fn words(list: &[&str]) -> Vec<String> {
    list.iter().map(|s| s.to_string()).collect()
}

fn load(mode: Mode) -> Workload {
    Workload {
        insert_id: vec![0, 1],
        select_id: vec![0, 2],
        rng: 1,
        value: vec![9, 9],
        mode,
        keys: 10,
        filled: 0,
    }
}

#[test]
fn frames_of_requests() {
    let mut out = vec![0xEE];
    frame(-2, 0x07, &[5, 6], &mut out);
    assert_eq!(out, vec![0xEE, 0x04, 0, 0xFF, 0xFE, 0x07, 0, 0, 0, 2, 5, 6]);
    let mut out = Vec::new();
    write_long_string("ab", &mut out);
    assert_eq!(out, vec![0, 0, 0, 2, b'a', b'b']);
    let mut out = Vec::new();
    startup_body(&mut out);
    let mut expected = vec![0, 1, 0, 11];
    expected.extend_from_slice(b"CQL_VERSION");
    expected.extend_from_slice(&[0, 5]);
    expected.extend_from_slice(b"3.0.0");
    assert_eq!(out, expected);
    assert_eq!(query_body("x"), vec![0, 0, 0, 1, b'x', 0, 1, 0]);
    assert_eq!(
        execute_body(&[0, 3], &vec![vec![7]], true),
        vec![0, 2, 0, 3, 0, 1, 0x03, 0, 1, 0, 0, 0, 1, 7]
    );
}

#[test]
fn prepared_ids_are_read() {
    assert_eq!(prepared_id(&[0, 0, 0, 4, 0, 2, 8, 9, 1]), Some(vec![8, 9]));
    assert_eq!(prepared_id(&[0, 0, 0, 1, 0, 2, 8, 9]), None);
    assert_eq!(prepared_id(&[0, 0, 0, 4, 0, 2, 8]), None);
    assert_eq!(prepared_id(&[0, 0]), None);
}

#[test]
fn random_numbers() {
    assert_eq!(xorshift(1), 1082269761);
    assert_eq!(xorshift(0), 0);
    assert_eq!(seed(0, 1), 0x9E37_79B9_7F4A_7C15);
    assert_eq!(seed(5, 0), 5);
}

#[test]
fn operations_of_a_load() {
    assert!(is_insert(Mode::Write, 1));
    assert!(!is_insert(Mode::Read, 0));
    assert!(is_insert(Mode::Mixed, 0));
    assert!(!is_insert(Mode::Mixed, 1));
    let mut w = load(Mode::Write);
    assert_eq!(w.key(), 1 + 1082269761 % 10);
    assert_eq!(w.rng, 1082269761);
    let mut r = load(Mode::Read);
    assert_eq!(r.key(), 1);
    let mut out = Vec::new();
    let mut w = load(Mode::Write);
    w.execute_frame(true, &mut out, 4);
    let mut expected = Vec::new();
    frame(4, 0x0A, &execute_body(&[0, 1], &vec![2u64.to_be_bytes().to_vec(), vec![9, 9]], false), &mut expected);
    assert_eq!(out, expected);
    let mut ctx = ConnCtx { load: load(Mode::Mixed), next_stream: i16::MAX };
    let mut out = Vec::new();
    assert!(ctx.build_op(0, &mut out));
    assert_eq!(ctx.next_stream, 0);
    assert!(!ctx.build_op(1, &mut out));
    assert_eq!(ctx.next_stream, 1);
}

#[test]
fn arguments_of_a_benchmark() {
    let a = parse_args(&words(&[]), 128, 256).unwrap();
    assert_eq!(a.addr, "127.0.0.1:9042");
    assert_eq!((a.conns, a.pipeline, a.seconds), (128, 256, 10));
    assert_eq!(a.mode, Mode::Read);
    assert_eq!((a.keys, a.fill_keys, a.value_len), (1_000_000, 200_000, 64));
    let a = parse_args(
        &words(&[
            "--addr", "h:1", "--conns", "2", "--pipeline", "3", "--seconds", "4", "--mode", "mixed",
            "--keys", "5", "--fill-keys", "6", "--value-len", "7",
        ]),
        1,
        1,
    )
    .unwrap();
    assert_eq!(a.addr, "h:1");
    assert_eq!((a.conns, a.pipeline, a.seconds), (2, 3, 4));
    assert_eq!(a.mode, Mode::Mixed);
    assert_eq!((a.keys, a.fill_keys, a.value_len), (5, 6, 7));
    assert!(matches!(
        parse_args(&words(&["--keys"]), 1, 1),
        Err(ArgError::Missing(k)) if k == "--keys"
    ));
    assert!(matches!(
        parse_args(&words(&["--what", "1"]), 1, 1),
        Err(ArgError::Unknown(k)) if k == "--what"
    ));
    assert!(matches!(
        parse_args(&words(&["--mode", "slow"]), 1, 1),
        Err(ArgError::UnknownMode(v)) if v == "slow"
    ));
    assert!(matches!(
        parse_args(&words(&["--keys", "-1"]), 1, 1),
        Err(ArgError::NotANumber(v)) if v == "-1"
    ));
}

#[test]
fn arguments_of_a_storage_benchmark() {
    let a = parse_storage_args(&words(&["x", "--data", "d", "--keys", "no", "--threads", "3", "--fill"]), "e", 8);
    assert_eq!(a.data, "d");
    assert_eq!(a.threads, 3);
    let b = parse_storage_args(&words(&[]), "e", 8);
    assert_eq!(b.data, "e");
    assert_eq!(b.threads, 8);
    assert_eq!(a.keys, b.keys);
    assert_eq!(a.fill, b.fill);
}

#[test]
fn health_probes() {
    assert_eq!(
        health_response(b"GET /health HTTP/1.1\r\n", 123),
        "HTTP/1.1 200 OK\r\nContent-Type: application/json\r\nContent-Length: 32\r\nConnection: close\r\n\r\n{\"status\":\"ok\",\"uptime_sec\":123}"
    );
    assert_eq!(health_response(b"GET /ready", 1), health_response(b"GET /health", 1));
    let metrics = health_response(b"GET /metrics", 5);
    assert!(metrics.contains("rhydadb_up 1\n"));
    assert!(metrics.ends_with("rhydadb_uptime_seconds 5\n"));
    assert!(health_response(b"GET /other", 0).starts_with("HTTP/1.1 404 Not Found\r\n"));
    assert!(health_response(b"POST /health", 0).starts_with("HTTP/1.1 400 Bad Request\r\n"));
    assert!(health_response(b"", 0).ends_with("{\"status\":\"bad_request\"}"));
}

#[test]
fn keys_are_picked() {
    assert_eq!(pick_key(0, 10), 1);
    assert_eq!(pick_key(9, 10), 10);
    assert_eq!(pick_key(10, 10), 1);
    assert_eq!(pick_key(u64::MAX, 1), 1);
}
