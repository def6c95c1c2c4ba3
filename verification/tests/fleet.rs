use std::collections::VecDeque;

use cyd_companion::fleet::{
    apply_config, apply_status, arm_decision, bench_silent_message, bench_watch, board_present, job_board, pool_has_priority, pool_lost, resume_jobs, share_plan, BenchWatch, PoolLost, board_endpoint_is_softap_setup,
    board_indep_live, board_wifi_command, classify_submit_error, cmd_timing, command_chunks,
    find_recent_job, fleet_job_count, harvest_lines, hold_shares, keep_share_lines,
    legacy_job_reply, linked_index, mac_collision, next_backoff, note_status_failure, parse_share, pool_command,
    pool_push_acked, pool_state, port_listed, push_capped, reply_has_ssid, reply_payload, rx_tail,
    same_mac_index, split_job_reply, take_reply, tcp_save_confirmed, timeout_message,
    update_may_preempt, usb_err_looks_unplugged, wifi_cmd_route, wifi_reply_failed, ArmDecision,
    BoardState, CmdTiming, IndepChange, JobReply, RateUpdate, ReplyStep, ShareNotice,
    StatusFailure, StatusReport, SubmitFailure, WifiRoute,
};
use cyd_companion::miner::warmup_job;
use cyd_companion::stratum::WorkJob;

fn board(name: &str) -> BoardState {
    BoardState {
        name: name.into(),
        legacy_job: false,
        fw: String::new(),
        mac: String::new(),
        has_rate: false,
        hashes: 0,
        mining: false,
        status_fails: 0,
        download_mode: false,
        mine_indep: false,
    }
}

fn notice(job: &str, nonce: &str) -> ShareNotice {
    ShareNotice { job: job.into(), en2: "00".into(), ntime: "01".into(), nonce: nonce.into() }
}

#[test]
fn command_timing_table() {
    assert_eq!(cmd_timing("cmp bench quick"), CmdTiming { wait_ms: 180_000, retries: 1, chunk: 128, gap_ms: 1 });
    assert_eq!(cmd_timing("cmp ota via 10.0.0.2"), CmdTiming { wait_ms: 10_000, retries: 1, chunk: 256, gap_ms: 0 });
    assert_eq!(cmp_wait("cmp wifi clear"), 3_500);
    assert_eq!(cmp_wait("cmp status"), 1_800);
    assert_eq!(cmp_wait("cmp stats accepted=0&rejected=0"), 450);
    assert_eq!(cmp_wait("cmp jh 00ff"), 2_400);
    assert_eq!(cmd_timing("cmp job header=00"), CmdTiming { wait_ms: 3_200, retries: 2, chunk: 128, gap_ms: 1 });
    assert_eq!(cmd_timing("cmp ping"), CmdTiming { wait_ms: 2_000, retries: 3, chunk: 256, gap_ms: 0 });
    assert!(update_may_preempt("cmp status"));
    assert!(!update_may_preempt("cmp wifi clear"));
    assert!(!update_may_preempt("cmp pool url=x"));
}

fn cmp_wait(cmd: &str) -> u64 {
    cmd_timing(cmd).wait_ms
}

#[test]
fn timeout_texts() {
    assert_eq!(timeout_message("cmp status"), "USB timeout waiting for reply to `cmp status`");
    let long = "x".repeat(70);
    assert_eq!(timeout_message(&long), format!("USB timeout waiting for reply to `{}`", "x".repeat(56)));
    assert_eq!(
        bench_silent_message("cmp bench"),
        "USB timeout waiting for reply to `cmp bench` (no CMPBENCHPROG — update board firmware)"
    );
}

#[test]
fn unplug_errors_and_endpoints() {
    assert!(usb_err_looks_unplugged("write: Broken pipe (os error 32)"));
    assert!(usb_err_looks_unplugged("Access is denied. (os error 5)"));
    assert!(usb_err_looks_unplugged("The semaphore timeout period has expired"));
    assert!(!usb_err_looks_unplugged("USB timeout waiting for reply to `cmp status`"));
    assert!(board_endpoint_is_softap_setup(" 10.88.88.1:19284"));
    assert!(board_endpoint_is_softap_setup("cyd@10.88.88.7"));
    assert!(!board_endpoint_is_softap_setup("192.168.1.20:19284"));
    assert_eq!(next_backoff(1), 2);
    assert_eq!(next_backoff(16), 32);
    assert_eq!(next_backoff(32), 60);
    assert_eq!(next_backoff(60), 60);
    assert_eq!(arm_decision(false, true, "COM3"), ArmDecision::Arm);
    assert_eq!(arm_decision(true, true, "COM3"), ArmDecision::Idle);
    assert_eq!(arm_decision(false, false, "COM3"), ArmDecision::Idle);
    assert_eq!(arm_decision(false, true, "10.88.88.1:19284"), ArmDecision::SkipSoftAp);
}

#[test]
fn receive_buffer_replies() {
    assert_eq!(
        keep_share_lines("boot\r\n CMPSHARE nonce=1 \nCMP ok\nCMPSHARE nonce=2"),
        "CMPSHARE nonce=1\nCMPSHARE nonce=2\n"
    );
    let mut buf = String::from("log line\nCMPSHARE job=a&nonce=1\nCMPSTATUS {\"x\":1}\ntail\n");
    match take_reply(&mut buf) {
        Some(ReplyStep::Done(r)) => assert_eq!(r, "CMPSTATUS {\"x\":1}"),
        other => panic!("unexpected {other:?}"),
    }
    assert_eq!(buf, "CMPSHARE job=a&nonce=1\n");
    let mut buf = String::from("CMPERR unknown cmd\n");
    assert!(matches!(take_reply(&mut buf), Some(ReplyStep::Failed(r)) if r == "CMPERR unknown cmd"));
    let mut buf = String::from("CMPBENCHPROG step=2\n");
    assert!(matches!(take_reply(&mut buf), Some(ReplyStep::Progress(_))));
    let mut buf = String::from("nothing yet\n");
    assert!(take_reply(&mut buf).is_none());
    assert_eq!(buf, "nothing yet\n");
}

#[test]
fn job_push_replies() {
    assert!(matches!(split_job_reply("cmp jh 00", Ok("CMPACK jh".into())), JobReply::Accepted));
    assert!(matches!(split_job_reply("cmp jh 00", Ok("CMP ok".into())), JobReply::Accepted));
    match split_job_reply("cmp jh 00", Ok("CMPERR unknown cmd".into())) {
        JobReply::Fallback(m) => {
            assert_eq!(m, "Board rejected `cmp jh 00` (CMPERR unknown cmd) — falling back to legacy job")
        }
        other => panic!("unexpected {other:?}"),
    }
    match split_job_reply("cmp jt 00", Ok("CMPSTATUS {}".into())) {
        JobReply::Failed(m) => assert_eq!(m, "unexpected job reply: CMPSTATUS {}"),
        other => panic!("unexpected {other:?}"),
    }
    match split_job_reply("cmp ja", Err("CMPERR unknown".into())) {
        JobReply::Fallback(m) => assert_eq!(m, "Board rejected split job (CMPERR unknown) — falling back to legacy job"),
        other => panic!("unexpected {other:?}"),
    }
    match split_job_reply("cmp ja", Err("write: gone".into())) {
        JobReply::Failed(m) => assert_eq!(m, "write: gone"),
        other => panic!("unexpected {other:?}"),
    }
    assert_eq!(legacy_job_reply(Ok("CMPACK job".into())), Ok(()));
    assert_eq!(legacy_job_reply(Ok("huh".into())), Err("unexpected job reply: huh".to_string()));
    assert_eq!(legacy_job_reply(Err("timeout".into())), Err("timeout".to_string()));
}

#[test]
fn share_notices() {
    let chars: Vec<char> = "nonce=0000abcd&job=6a&en2=01000000&ntime=65f0&job=6b&junk".chars().collect();
    let s = parse_share(&chars);
    assert_eq!((s.job.as_str(), s.en2.as_str(), s.ntime.as_str(), s.nonce.as_str()), ("6b", "01000000", "65f0", "0000abcd"));
    let h = harvest_lines(
        "CMPSHARE job=6b&nonce=1\n  hello \nCMPSHARE job=warmup&nonce=2\n\nCMPSHARE job=7&nonce=3\n",
        false,
    );
    assert_eq!(h.keep, "hello\n");
    assert_eq!(h.shares.iter().map(|s| s.job.as_str()).collect::<Vec<_>>(), vec!["6b", "7"]);
    assert_eq!(h.ignored_warmup, vec!["2".to_string()]);
    let h = harvest_lines("CMPSHARE job=6b&nonce=1\nx\n", true);
    assert!(h.shares.is_empty() && h.ignored_warmup.is_empty());
    assert_eq!(h.keep, "x\n");
}

#[test]
fn held_shares_are_capped() {
    let mut held: VecDeque<ShareNotice> = VecDeque::new();
    hold_shares(&mut held, (0..70).map(|i| notice("j", &i.to_string())).collect());
    assert_eq!(held.len(), 64);
    assert_eq!(held.front().unwrap().nonce, "6");
    assert_eq!(held.back().unwrap().nonce, "69");
    let mut q: VecDeque<u32> = VecDeque::new();
    for i in 0..100 {
        push_capped(&mut q, i, 96);
        assert!(q.len() <= 96);
    }
    assert_eq!(q.front(), Some(&4));
}

#[test]
fn submit_failures_and_cache() {
    assert_eq!(classify_submit_error("duplicate share"), SubmitFailure::Duplicate);
    assert_eq!(classify_submit_error("not authorized"), SubmitFailure::Unauthorized);
    assert_eq!(classify_submit_error("write: broken"), SubmitFailure::Other);
    let mut recent: VecDeque<WorkJob> = VecDeque::new();
    for (id, en2) in [("a", "00AA"), ("b", "0001"), ("a", "00aa")] {
        let mut j = warmup_job();
        j.job_id = id.into();
        j.extranonce2_hex = en2.into();
        recent.push_back(j);
    }
    assert_eq!(find_recent_job(&recent, "a", "00aA"), Some(2));
    assert_eq!(find_recent_job(&recent, "b", "0001"), Some(1));
    assert_eq!(find_recent_job(&recent, "c", "0001"), None);
}

#[test]
fn status_bookkeeping() {
    let mut b = board("COM3");
    b.hashes = 500;
    b.mining = true;
    let st = StatusReport {
        rate_positive: false,
        hashes: 400,
        mining: false,
        mac: "AABBCCDDEEFF".into(),
        mine_indep: true,
        pool_phase: "OK".into(),
    };
    let (rate, indep) = apply_status(&mut b, &st, true);
    assert_eq!(rate, RateUpdate::Keep);
    assert_eq!(indep, IndepChange::Started);
    assert_eq!(b.hashes, 500);
    assert_eq!(b.mac, "aa:bb:cc:dd:ee:ff");
    assert!(b.mine_indep);
    let st2 = StatusReport { rate_positive: true, hashes: 900, mining: false, mac: String::new(), mine_indep: false, pool_phase: String::new() };
    let (rate, indep) = apply_status(&mut b, &st2, false);
    assert_eq!(rate, RateUpdate::Take);
    assert_eq!(indep, IndepChange::Stopped);
    assert_eq!(b.hashes, 900);
    assert!(!b.mining);
    assert!(b.has_rate);
    let mut idle = board("COM4");
    let st3 = StatusReport { rate_positive: false, hashes: 0, mining: false, mac: String::new(), mine_indep: false, pool_phase: String::new() };
    assert_eq!(apply_status(&mut idle, &st3, false).0, RateUpdate::Zero);
    assert!(board_indep_live(true, "mine"));
    assert!(!board_indep_live(true, "auth"));
    assert!(!board_indep_live(false, "ok"));
}

#[test]
fn status_failures() {
    let mut b = board("COM5");
    assert_eq!(note_status_failure(&mut b, Some("write: Broken pipe")), StatusFailure::Gone);
    assert_eq!(b.status_fails, 0);
    assert_eq!(note_status_failure(&mut b, None), StatusFailure::Soft { log: true, drop: false });
    assert_eq!(note_status_failure(&mut b, Some("USB timeout")), StatusFailure::Soft { log: false, drop: false });
    assert_eq!(note_status_failure(&mut b, None), StatusFailure::Soft { log: false, drop: false });
    assert_eq!(note_status_failure(&mut b, None), StatusFailure::Soft { log: false, drop: true });
    assert_eq!(note_status_failure(&mut b, None), StatusFailure::Soft { log: true, drop: true });
    b.status_fails = 255;
    assert_eq!(note_status_failure(&mut b, None), StatusFailure::Soft { log: true, drop: true });
    assert_eq!(b.status_fails, 255);
}

#[test]
fn config_and_payloads() {
    let mut b = board("COM3");
    apply_config(&mut b, "0.6.1", "");
    assert!(b.legacy_job);
    assert_eq!(b.fw, "0.6.1");
    apply_config(&mut b, "0.7.0", "a1-b2-c3-d4-e5-f6");
    assert!(!b.legacy_job);
    assert_eq!(b.mac, "a1:b2:c3:d4:e5:f6");
    assert_eq!(reply_payload("CMPSTATUS {\"a\":1}", "CMPSTATUS ", "status"), Ok("{\"a\":1}".to_string()));
    assert_eq!(reply_payload("CMPACK", "CMPCONFIG ", "config"), Err("bad config line: CMPACK".to_string()));
}

#[test]
fn linking_lookups() {
    let listed = vec!["COM3".to_string(), r"\\.\COM10".to_string()];
    assert!(port_listed(&listed, "com10"));
    assert!(!port_listed(&listed, "COM4"));
    assert_eq!(linked_index(&listed, r"\\.\com3"), Some(0));
    assert_eq!(linked_index(&listed, "COM9"), None);
    let macs = vec!["unknown".to_string(), "AA:BB:CC:DD:EE:01".to_string()];
    assert_eq!(same_mac_index(&macs, "aabbccddee01"), Some(1));
    assert_eq!(same_mac_index(&macs, "unknown"), None);
}

#[test]
fn wifi_commands() {
    let linked = vec!["COM3".to_string(), "192.168.1.9:19284".to_string()];
    assert!(matches!(wifi_cmd_route(&linked, r"\\.\COM3"), WifiRoute::Linked(0)));
    assert!(matches!(wifi_cmd_route(&linked, "192.168.1.9:19284"), WifiRoute::Linked(1)));
    assert!(matches!(wifi_cmd_route(&linked, " COM7 "), WifiRoute::OneShotUsb(p) if p == "COM7"));
    assert!(matches!(wifi_cmd_route(&linked, "10.88.88.1:19284"), WifiRoute::OneShotTcp(p) if p == "10.88.88.1:19284"));
    match wifi_cmd_route(&linked, "mystery") {
        WifiRoute::NotLinked(m) => assert_eq!(m, "Board mystery not linked — join open SoftAP Njordr-XXXX or Link USB first"),
        other => panic!("unexpected {other:?}"),
    }
    assert_eq!(board_wifi_command("My Net", "p&ss", true), "cmp wifi ssid=My+Net&pass=p%26ss&en=1");
    assert_eq!(board_wifi_command("x", "y", false), "cmp wifi clear");
    assert!(wifi_reply_failed("cmpErr bad ssid"));
    assert!(!wifi_reply_failed("CMPACK wifi saved"));
    assert!(reply_has_ssid("CMPACK ssid=myNet", "MYNET"));
    assert!(!reply_has_ssid("CMPACK saved", "MYNET"));
    assert!(tcp_save_confirmed("CMPACK Wifi Saved", "x"));
    assert_eq!(
        pool_command("stratum+tcp://p:3333", "addr.companion", "x"),
        "cmp pool url=stratum%2Btcp%3A%2F%2Fp%3A3333&worker=addr.companion&pass=x&indep=1"
    );
    assert!(pool_push_acked("cmpack pool"));
    assert_eq!(fleet_job_count(&vec![true, true]), 1);
    assert_eq!(fleet_job_count(&vec![false, true, false]), 2);
}

#[test]
fn command_chunking() {
    let chunks = command_chunks("cmp status", 4);
    let joined: Vec<u8> = chunks.iter().flatten().copied().collect();
    assert_eq!(joined, b"\r\ncmp status\r\n".to_vec());
    assert!(chunks.iter().all(|c| !c.is_empty() && c.len() <= 4));
    assert_eq!(chunks.len(), 4);
    assert_eq!(command_chunks("ping", 256), vec![b"\r\nping\r\n".to_vec()]);
}

#[test]
fn pool_badges() {
    assert_eq!(pool_state(true, "err", "x", false, true, true, false), "AUTHORIZED");
    assert_eq!(pool_state(false, "auth-fail", "", false, true, true, false), "AUTH FAILED");
    assert_eq!(pool_state(false, "sub", "", true, true, true, false), "RECONNECTING…");
    assert_eq!(pool_state(false, "mine", "", true, true, true, false), "AUTHORIZED");
    assert_eq!(pool_state(false, "tcp", "", false, false, false, false), "TCP…");
    assert_eq!(pool_state(false, "idle", "", false, false, true, false), "CONNECTING…");
    assert_eq!(pool_state(false, "off", "", false, true, false, true), "SOFTAP — REJOIN HOME");
    assert_eq!(pool_state(false, "off", "", false, true, false, false), "POOL DOWN");
    assert_eq!(pool_state(false, "off", "", false, false, false, false), "IDLE");
}

#[test]
fn mac_collision_finds_board_linked_twice() {
    let macs = vec!["AA:BB:CC:DD:EE:01".to_string(), "COM4".to_string(), "aabbccddee01".to_string()];
    assert!(mac_collision(&macs));
    let macs = vec!["AA:BB:CC:DD:EE:01".to_string(), "AA:BB:CC:DD:EE:02".to_string()];
    assert!(!mac_collision(&macs));
    let macs = vec!["".to_string(), "".to_string(), "unknown".to_string(), "unknown".to_string()];
    assert!(!mac_collision(&macs));
}

#[test]
fn bench_watchdog_steps() {
    match bench_watch(215, 3, true, "x") {
        BenchWatch::Expired(m) => assert_eq!(
            m,
            "Bench watchdog: still busy after 215s — cleared. Retry Bench or Push firmware if it hangs again."
        ),
        other => panic!("{other:?}"),
    }
    match bench_watch(60, 47, true, "x") {
        BenchWatch::Stalled(m) => assert_eq!(
            m,
            "Bench stuck — no progress for 47s (elapsed 60s). Cancelled; update board FW if this repeats."
        ),
        other => panic!("{other:?}"),
    }
    match bench_watch(60, 10, true, "") {
        BenchWatch::Notify(m) => assert_eq!(m, "Still benching… tuning SHA paths · 60s"),
        other => panic!("{other:?}"),
    }
    match bench_watch(40, 40, true, "Bench hw…") {
        BenchWatch::Notify(m) => assert_eq!(m, "Still benching… Bench hw… · 40s"),
        other => panic!("{other:?}"),
    }
    assert!(matches!(bench_watch(40, 40, false, ""), BenchWatch::Quiet));
}

#[test]
fn receive_buffer_keeps_its_tail() {
    assert_eq!(rx_tail("short", 10, 4), "short");
    assert_eq!(rx_tail("0123456789abcdef", 10, 4), "cdef");
    // The cut moves forward to the next char boundary ("é" is two bytes).
    assert_eq!(rx_tail("aaaaaaaaéxyz", 10, 4), "xyz");
    assert_eq!(rx_tail("aaaaaaaaaéxyz", 10, 5), "éxyz");
    // Whatever comes in, the kept text is a tail of at most `keep` bytes.
    for n in 0..60 {
        let s = "hé€llo wörld ".repeat(n);
        let t = rx_tail(&s, 100, 40);
        assert!(s.ends_with(&t));
        assert!(t.len() <= if s.len() > 100 { 40 } else { 100 });
    }
}

#[test]
fn pool_and_port_watch() {
    assert!(pool_has_priority(true, false, false, false, false));
    assert!(pool_has_priority(false, true, false, false, false));
    assert!(!pool_has_priority(false, true, false, true, false));
    assert!(!pool_has_priority(false, true, true, false, false));
    assert!(pool_has_priority(false, false, true, false, true));
    assert_eq!(pool_lost(false, "auth-fail", true, "pool:3333"), PoolLost::GiveUp);
    assert_eq!(pool_lost(true, "ok", true, "pool:3333"), PoolLost::GiveUp);
    assert_eq!(pool_lost(false, "tcp", true, "pool:3333"), PoolLost::Reconnect);
    assert_eq!(pool_lost(false, "tcp", true, ""), PoolLost::Idle);
    assert_eq!(pool_lost(false, "tcp", false, "pool:3333"), PoolLost::Idle);
    let listed = vec!["COM3".to_string(), "/dev/ttyUSB0".to_string()];
    assert!(board_present("\\\\.\\COM3", false, None, &listed));
    assert!(board_present("/dev/ttyUSB0", false, None, &listed));
    assert!(!board_present("COM9", false, None, &listed));
    assert!(board_present("COM9", false, Some("com9"), &listed));
    assert!(board_present("192.168.1.5:19284", true, None, &listed));
}

#[test]
fn bench_resume_jobs_are_distinct() {
    let mut recent: VecDeque<WorkJob> = VecDeque::new();
    for en2 in ["a", "b", "a", "c"] {
        let mut j = warmup_job();
        j.extranonce2_hex = en2.into();
        recent.push_back(j);
    }
    assert_eq!(resume_jobs(&recent, 2), vec![3, 2]);
    assert_eq!(resume_jobs(&recent, 5), vec![3, 2, 1]);
    assert_eq!(resume_jobs(&recent, 1), vec![3]);
    assert_eq!(resume_jobs(&recent, 0), vec![3]);
    assert_eq!(resume_jobs(&VecDeque::new(), 3), Vec::<usize>::new());
    // No two picks share an extranonce2.
    let picks = resume_jobs(&recent, 5);
    for a in 0..picks.len() {
        for b in a + 1..picks.len() {
            assert_ne!(recent[picks[a]].extranonce2_hex, recent[picks[b]].extranonce2_hex);
        }
    }
}

#[test]
fn pool_jobs_go_round_the_pushed_boards() {
    let indep = vec![false, true, false];
    assert_eq!(job_board(&indep, 0), Some((0, 1)));
    assert_eq!(job_board(&indep, 1), Some((2, 0)));
    assert_eq!(job_board(&indep, 2), Some((2, 0)));
    assert_eq!(job_board(&indep, 7), Some((2, 0)));
    assert_eq!(job_board(&vec![true, true], 0), None);
    assert_eq!(job_board(&Vec::new(), 0), None);
}

#[test]
fn shares_submitted_or_held() {
    let mut held: VecDeque<ShareNotice> = VecDeque::new();
    held.push_back(notice("j1", "00000001"));
    let out = share_plan(&mut held, vec![notice("j2", "00000002")], true);
    let nonces: Vec<&str> = out.iter().map(|s| s.nonce.as_str()).collect();
    assert_eq!(nonces, vec!["00000001", "00000002"]);
    assert!(held.is_empty());
    held.push_back(notice("j1", "00000001"));
    let out = share_plan(&mut held, vec![notice("j3", "00000003")], false);
    assert!(out.is_empty());
    let nonces: Vec<&str> = held.iter().map(|s| s.nonce.as_str()).collect();
    assert_eq!(nonces, vec!["00000001", "00000003"]);
}
