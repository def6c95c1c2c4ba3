use cyd_companion::client::{StratumClient, StratumEvent};
use cyd_companion::json::{Json, JsonValue};

fn s(t: &str) -> Json {
    Json { value: JsonValue::Str(t.to_string()), text: format!("\"{t}\"") }
}

fn n(v: u64) -> Json {
    Json { value: JsonValue::Number(Some(v)), text: v.to_string() }
}

fn b(v: bool) -> Json {
    Json { value: JsonValue::Bool(v), text: v.to_string() }
}

fn null() -> Json {
    Json { value: JsonValue::Null, text: "null".to_string() }
}

fn arr(items: Vec<Json>) -> Json {
    let text = format!("[{}]", items.iter().map(|j| j.text.clone()).collect::<Vec<_>>().join(","));
    Json { value: JsonValue::Array(items), text }
}

fn obj(members: Vec<(&str, Json)>) -> Json {
    let text = format!(
        "{{{}}}",
        members.iter().map(|(k, v)| format!("\"{k}\":{}", v.text)).collect::<Vec<_>>().join(",")
    );
    Json {
        value: JsonValue::Object(members.into_iter().map(|(k, v)| (k.to_string(), v)).collect()),
        text,
    }
}

fn notify(job: &str) -> Json {
    obj(vec![
        ("id", null()),
        ("method", s("mining.notify")),
        (
            "params",
            arr(vec![
                s(job),
                s(&"00".repeat(32)),
                s("01000000"),
                s("ffffffff"),
                arr(vec![]),
                s("20000000"),
                s("1d00ffff"),
                s("5f5e1000"),
                b(true),
            ]),
        ),
    ])
}

/// A session that has subscribed and is authorized.
fn authorized_client() -> StratumClient {
    let mut c = StratumClient::new("bc1qaddr.rig".into(), "x".into());
    let _ = c.prepare_connect("stratum+tcp://pool.example:3333");
    let _ = c.on_connected();
    let sub = obj(vec![
        ("id", n(1)),
        ("result", arr(vec![arr(vec![]), s("f000000f"), n(4)])),
        ("error", null()),
    ]);
    let _ = c.handle_message(&sub);
    let auth = obj(vec![("id", n(2)), ("result", b(true)), ("error", null())]);
    let _ = c.handle_message(&auth);
    c
}

#[test]
fn handshake_subscribe_then_authorize() {
    let mut c = StratumClient::new("bc1qaddr.rig".into(), "pw".into());
    assert!(!c.connected());
    assert_eq!(c.prepare_connect("stratum+tcp://pool.example:3334"), Ok(("pool.example".to_string(), 3334)));
    assert_eq!(c.endpoint, "pool.example:3334");
    let req = c.on_connected();
    assert_eq!(req.id, 1);
    assert_eq!(req.method, "mining.subscribe");
    assert_eq!(req.params, vec!["cgminer/4.12.0".to_string()]);
    assert!(c.stream_connected());
    let sub = obj(vec![
        ("id", n(1)),
        ("result", arr(vec![arr(vec![]), s("f000000f"), n(4)])),
        ("error", null()),
    ]);
    match c.handle_message(&sub) {
        Ok(StratumEvent::Send(r)) => {
            assert_eq!(r.id, 2);
            assert_eq!(r.method, "mining.authorize");
            assert_eq!(r.params, vec!["bc1qaddr.rig".to_string(), "pw".to_string()]);
        }
        other => panic!("expected authorize request, got {other:?}"),
    }
    assert!(!c.authorized());
    let auth = obj(vec![("id", n(2)), ("result", b(true)), ("error", null())]);
    assert!(matches!(c.handle_message(&auth), Ok(StratumEvent::Idle)));
    assert!(c.authorized());
    assert!(c.connected());
}

#[test]
fn subscribe_and_authorize_errors() {
    let mut c = StratumClient::new("w".into(), "x".into());
    let _ = c.on_connected();
    let sub = obj(vec![("id", n(1)), ("result", null()), ("error", arr(vec![n(20), s("busy")]))]);
    assert_eq!(c.handle_message(&sub).err(), Some("subscribe failed: [20,\"busy\"]".to_string()));
    assert_eq!(c.phase, "err");
    let mut c = authorized_client_with_auth_reply(false);
    assert!(!c.authorized());
    let late = obj(vec![("id", n(9)), ("result", b(true)), ("error", null())]);
    let _ = c.handle_message(&late);
    assert_eq!(c.accepted, 1);
}

fn authorized_client_with_auth_reply(ok: bool) -> StratumClient {
    let mut c = StratumClient::new("w".into(), "x".into());
    let _ = c.on_connected();
    let sub = obj(vec![("id", n(1)), ("result", arr(vec![arr(vec![]), s("00"), n(4)])), ("error", null())]);
    let _ = c.handle_message(&sub);
    let auth = obj(vec![("id", n(2)), ("result", b(ok)), ("error", null())]);
    let r = c.handle_message(&auth);
    if !ok {
        assert_eq!(r.err(), Some("authorize failed".to_string()));
    }
    c
}

#[test]
fn notify_builds_a_job_with_the_share_target() {
    let mut c = authorized_client();
    assert!(matches!(
        c.handle_message(&obj(vec![("id", null()), ("method", s("mining.set_difficulty")), ("params", arr(vec![n(2)]))])),
        Ok(StratumEvent::SetDifficulty)
    ));
    let mut target = [0u8; 32];
    target[27] = 0x7f;
    c.apply_difficulty(target, "2".into());
    assert!(matches!(c.handle_message(&notify("job-1")), Ok(StratumEvent::Idle)));
    assert_eq!(c.job_id(), "job-1");
    assert_eq!(c.phase, "mine");
    let job = c.take_job().expect("job");
    assert!(c.take_job().is_none());
    assert_eq!(job.job_id, "job-1");
    assert_eq!(job.target, target);
    assert_eq!(&job.header[0..4], &[0, 0, 0, 0x20]);
    assert_eq!(&job.header[72..76], &[0xff, 0xff, 0x00, 0x1d]);
    assert_eq!(&job.header[76..80], &[0, 0, 0, 0]);
    assert_eq!(job.extranonce2_hex, "01000000");
    assert_eq!(job.ntime_hex, "5f5e1000");
    let _ = c.handle_message(&notify("job-2"));
    let job2 = c.take_job().expect("job");
    assert_eq!(job2.extranonce2_hex, "02000000");
    assert!(c.recent.iter().any(|l| l == "← mining.notify job=job-2 diff=2"));
}

#[test]
fn shares_need_authorization() {
    let mut c = StratumClient::new("w".into(), "x".into());
    assert_eq!(c.submit_share("j", "00", "01", "0000abcd").err(), Some("not authorized".to_string()));
    let mut c = authorized_client();
    let req = c.submit_share("j", "01000000", "5f5e1000", "0000abcd").expect("submit");
    assert_eq!(req.id, 3);
    assert_eq!(req.method, "mining.submit");
    assert_eq!(req.params, vec!["bc1qaddr.rig", "j", "01000000", "5f5e1000", "0000abcd"]);
    let ok = obj(vec![("id", n(3)), ("result", b(true)), ("error", null())]);
    let _ = c.handle_message(&ok);
    assert_eq!(c.accepted, 1);
    let bad = obj(vec![("id", n(4)), ("result", b(false)), ("error", arr(vec![n(23), s("Low difficulty share")]))]);
    let _ = c.handle_message(&bad);
    assert_eq!(c.rejected, 1);
    assert_eq!(c.recent.last().map(String::as_str), Some("← share REJECTED id=4 [23,\"Low difficulty share\"]"));
}

#[test]
fn log_keeps_newest_forty() {
    let mut c = StratumClient::new("w".into(), "x".into());
    for i in 0..50 {
        c.record_received(&format!("line{i}"));
    }
    assert_eq!(c.recent.len(), 40);
    assert_eq!(c.recent[0], "← line10");
    assert_eq!(c.recent[39], "← line49");
    c.record_sent("{\"id\":1}\n");
    assert_eq!(c.recent.last().map(String::as_str), Some("→ {\"id\":1}"));
    let taken = c.take_recent();
    assert_eq!(taken.len(), 40);
    assert!(c.recent.is_empty());
}

#[test]
fn disconnect_clears_session() {
    let mut c = authorized_client();
    let _ = c.handle_message(&notify("j"));
    c.disconnect();
    assert!(!c.connected());
    assert!(c.take_job().is_none());
    assert_eq!(c.phase, "off");
}

#[test]
fn session_log_keeps_newest_forty() {
    let mut c = StratumClient::new("w".into(), "x".into());
    let before = (c.accepted, c.rejected, c.lines_rx, c.lines_tx);
    for i in 0..45 {
        c.push_recent(format!("line {i}"));
    }
    assert_eq!(c.recent.len(), 40);
    assert_eq!(c.recent.first().map(String::as_str), Some("line 5"));
    assert_eq!(c.recent.last().map(String::as_str), Some("line 44"));
    assert_eq!(before, (c.accepted, c.rejected, c.lines_rx, c.lines_tx));
    c.push_recent("only".into());
    assert_eq!(c.recent.last().map(String::as_str), Some("only"));
}
