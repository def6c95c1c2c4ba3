use cyd_companion::miner::{
    clock_command, default_pool, migrate_pool, mine_start, pool_port_warning, MineStart,
    clock_label, cmp_reply_line, cpu_mhz_nudge, default_mhz, format_uptime, fw_supports_split_jobs,
    is_warmup_job_id, normalize_cpu_mhz, sha_mode_label, sha_path_display, stamp, stratum_endpoints_match, stratum_password,
    stratum_worker_for_board, stratum_worker_for_companion, warmup_job,
};

#[test]
fn warmup_ids() {
    assert!(is_warmup_job_id(""));
    assert!(is_warmup_job_id("  "));
    assert!(is_warmup_job_id("warmup"));
    assert!(is_warmup_job_id("WARMU"));
    assert!(is_warmup_job_id("warm"));
    assert!(!is_warmup_job_id("war"));
    assert!(!is_warmup_job_id("6a1f"));
    let j = warmup_job();
    assert_eq!(j.job_id, "warmup");
    assert_eq!(j.header[0], 1);
    assert_eq!(j.header[68], 0x5a);
    assert_eq!(j.target[31], 0x0f);
    assert_eq!(j.target[0], 0xff);
    assert_eq!(j.extranonce2_hex, "00000000");
}

#[test]
fn pool_credentials() {
    assert_eq!(stratum_worker_for_companion(" bc1qxyz "), "bc1qxyz.companion");
    assert_eq!(stratum_worker_for_companion("bc1qxyz.rig1"), "bc1qxyz.rig1");
    assert_eq!(stratum_worker_for_companion("   "), "");
    let once = stratum_worker_for_companion("addr");
    assert_eq!(stratum_worker_for_companion(&once), once);
    assert_eq!(stratum_worker_for_board("addr", "aa:bb:cc:dd:ee:ff"), "addr.companion");
    assert_eq!(stratum_password(""), "x");
    assert_eq!(stratum_password(" d=1024 "), "d=1024");
}

#[test]
fn endpoint_matching() {
    assert!(stratum_endpoints_match("stratum+tcp://Pool.Example:3333/", "pool.example:3333"));
    assert!(stratum_endpoints_match("tcp://h:1", "H:1"));
    assert!(!stratum_endpoints_match("h:1", "h:2"));
}

#[test]
fn reply_lines() {
    assert_eq!(cmp_reply_line("noise\r\n  CMPACK job  \r\n"), Some("CMPACK job".to_string()));
    assert_eq!(cmp_reply_line("xx CMPSTATUS {\"a\":1}\n"), Some("CMPSTATUS {\"a\":1}".to_string()));
    assert_eq!(cmp_reply_line("CMPSHARE nonce=1&job=2\nCMP ok pong\n"), Some("CMP ok pong".to_string()));
    assert_eq!(cmp_reply_line("CMPSHARE nonce=1\n"), None);
    assert_eq!(cmp_reply_line("CMPERR unknown"), Some("CMPERR unknown".to_string()));
}

#[test]
fn firmware_split_jobs() {
    assert!(fw_supports_split_jobs("0.6.2-sha256"));
    assert!(fw_supports_split_jobs("v0.7"));
    assert!(fw_supports_split_jobs("1.0.0"));
    assert!(!fw_supports_split_jobs("0.6.1"));
    assert!(!fw_supports_split_jobs(""));
    assert!(!fw_supports_split_jobs("beta"));
}

#[test]
fn uptime_labels() {
    assert_eq!(format_uptime(45), "45s");
    assert_eq!(format_uptime(60), "1m");
    assert_eq!(format_uptime(192), "3m 12s");
    assert_eq!(format_uptime(3600), "1h");
    assert_eq!(format_uptime(7500), "2h 5m");
    assert_eq!(format_uptime(86_400), "1d");
    assert_eq!(format_uptime(100_800), "1d 4h");
    assert_eq!(clock_label(3_661, 7), "01:01:01.007");
    assert_eq!(clock_label(86_400 + 59, 999), "00:00:59.999");
    let s = stamp();
    assert_eq!(s.len(), 12);
    assert_eq!(&s[2..3], ":");
}

#[test]
fn cpu_clock_steps() {
    assert_eq!(default_mhz(), 240);
    assert_eq!(normalize_cpu_mhz(0), 240);
    assert_eq!(normalize_cpu_mhz(100), 80);
    assert_eq!(normalize_cpu_mhz(120), 80);
    assert_eq!(normalize_cpu_mhz(121), 160);
    assert_eq!(normalize_cpu_mhz(255), 240);
    assert_eq!(cpu_mhz_nudge(160, true), 240);
    assert_eq!(cpu_mhz_nudge(240, true), 240);
    assert_eq!(cpu_mhz_nudge(10, false), 10);
    assert_eq!(cpu_mhz_nudge(90, false), 40);
    for m in [5u8, 30, 200] {
        assert!(cpu_mhz_nudge(m, true) >= normalize_cpu_mhz(m));
        assert!(cpu_mhz_nudge(m, false) <= normalize_cpu_mhz(m));
        assert_eq!(normalize_cpu_mhz(normalize_cpu_mhz(m)), normalize_cpu_mhz(m));
    }
}

#[test]
fn sha_labels() {
    assert_eq!(sha_mode_label("HW/SW", "SHA256-HW+"), "HW/SW");
    assert_eq!(sha_mode_label("", "SHA256-HW+"), "HW+");
    assert_eq!(sha_mode_label("", "SHA256-SW"), "—");
    assert_eq!(sha_mode_label("", "HW pool"), "—");
    assert_eq!(sha_path_display("HW"), "Full HW");
    assert_eq!(sha_path_display("HW+"), "HW+ mid");
    assert_eq!(sha_path_display("SW"), "Software");
    assert_eq!(sha_path_display("HW/SW"), "HW/SW");
    assert_eq!(sha_path_display("—"), "—");
}

#[test]
fn start_mining_requests() {
    assert_eq!(mine_start(false, "bc1q", false, false, "", "pool:1", ""), MineStart::NeedLink);
    assert_eq!(mine_start(true, "  ", false, false, "", "pool:1", ""), MineStart::NeedWorker);
    assert_eq!(
        mine_start(true, " bc1qabc ", true, true, "stratum+tcp://Pool.example:3337/", "pool.example:3337", "BC1QABC.companion"),
        MineStart::AlreadyMining
    );
    // Another worker, another pool, or a session not yet authorized: start.
    assert_eq!(
        mine_start(true, "bc1qxyz", true, true, "pool.example:3337", "pool.example:3337", "bc1qabc.companion"),
        MineStart::Start
    );
    assert_eq!(
        mine_start(true, "bc1qabc", true, true, "pool.example:3337", "other.example:3337", "bc1qabc.companion"),
        MineStart::Start
    );
    assert_eq!(
        mine_start(true, "bc1qabc", true, false, "pool.example:3337", "pool.example:3337", "bc1qabc.companion"),
        MineStart::Start
    );
}

#[test]
fn clock_commands() {
    assert_eq!(clock_command(240), "cmp clock cpu_mhz=240");
    assert_eq!(clock_command(0), "cmp clock cpu_mhz=240");
    assert_eq!(clock_command(80), "cmp clock cpu_mhz=80");
}

#[test]
fn pool_urls() {
    assert_eq!(default_pool(), "stratum+tcp://btc.hmpool.io:3337");
    assert_eq!(migrate_pool(""), "stratum+tcp://btc.hmpool.io:3337");
    assert_eq!(migrate_pool(" stratum+tcp://btc.hmpool.io:3335 "), "stratum+tcp://btc.hmpool.io:3337");
    assert_eq!(migrate_pool("stratum+tcp://hmpool.io:3335"), "stratum+tcp://btc.hmpool.io:3337");
    assert_eq!(migrate_pool("stratum+tcp://public-pool.io:21496"), "stratum+tcp://public-pool.io:21496");
    assert_eq!(migrate_pool("stratum+tcp://my.hmpool.io:3335"), "stratum+tcp://my.hmpool.io:3335");
    assert!(pool_port_warning("stratum+tcp://my.hmpool.io:3335").is_some());
    assert_eq!(pool_port_warning("stratum+tcp://btc.hmpool.io:3337"), None);
}
