use cyd_companion::client::StratumClient;
use cyd_companion::codec::{dsha256, hex_fixed, hex_lower};
use cyd_companion::miner::warmup_job;
use cyd_companion::stratum::{
    encode_job_cmd, encode_job_parts, parse_endpoint, swab256, swab32_bytes, urlenc, WorkJob,
};
use cyd_companion::target::hash_meets_target;

#[test]
fn endpoints_parse() {
    assert_eq!(parse_endpoint("stratum+tcp://pool.example:3334"), Ok(("pool.example".to_string(), 3334)));
    assert_eq!(parse_endpoint(" STRATUM+TCP://Pool.Example "), Ok(("Pool.Example".to_string(), 3333)));
    assert_eq!(parse_endpoint("tcp://1.2.3.4:1/path"), Ok(("1.2.3.4".to_string(), 1)));
    assert_eq!(parse_endpoint("stratum://h:+80"), Ok(("h".to_string(), 80)));
    assert_eq!(parse_endpoint("stratum+ssl://pool:443"), Err("SSL stratum not supported".to_string()));
    assert_eq!(parse_endpoint("pool:notaport"), Err("bad port".to_string()));
    assert_eq!(parse_endpoint("pool:70000"), Err("bad port".to_string()));
    assert_eq!(parse_endpoint(":3333"), Err("empty host".to_string()));
}

#[test]
fn hex_codec() {
    assert_eq!(hex_fixed("00ffA0", 3), Some(vec![0x00, 0xff, 0xa0]));
    assert_eq!(hex_fixed("abc", 1), None);
    assert_eq!(hex_fixed("zz", 1), None);
    assert_eq!(hex_lower(&[0xde, 0xad, 0x01]), "dead01");
    assert_eq!(hex_fixed("0011", 2), Some(vec![0, 0x11]));
    assert_eq!(hex_fixed("0011", 3), None);
    // Hex text decodes back to its bytes.
    let b: Vec<u8> = (0..=255u8).collect();
    assert_eq!(hex_fixed(&hex_lower(&b), 256), Some(b));
}

#[test]
fn sha256_vectors() {
    assert_eq!(
        hex_lower(&dsha256(b"")),
        "5df6e0e2761359d30a8275058e299fcc0381534545f55cf43e41983f5d4c9456"
    );
    assert_eq!(
        hex_lower(&dsha256(b"abc")),
        "4f8b42c22dd3729b519ba6f68d2da7cc5b2d606d05daed5ad5128cc03e6c6358"
    );
}

#[test]
fn byte_swaps() {
    let mut w = [1u8, 2, 3, 4, 5];
    swab32_bytes(&mut w);
    assert_eq!(w, [4, 3, 2, 1, 5]);
    let mut short = [1u8, 2, 3];
    swab32_bytes(&mut short);
    assert_eq!(short, [1, 2, 3]);
    let orig: Vec<u8> = (0..33u8).collect();
    let mut h = orig.clone();
    swab256(&mut h);
    assert_eq!(&h[0..8], &[3, 2, 1, 0, 7, 6, 5, 4]);
    assert_eq!(h[32], 32);
    swab256(&mut h);
    assert_eq!(h, orig);
}

#[test]
fn targets_compare_little_endian() {
    let mut target = [0u8; 32];
    target[31] = 0x0f;
    let mut hash = [0xffu8; 32];
    hash[31] = 0x0e;
    assert!(hash_meets_target(&hash, &target));
    hash[31] = 0x0f;
    assert!(!hash_meets_target(&hash, &target));
    assert!(hash_meets_target(&target, &target));
}

fn sample_job() -> WorkJob {
    WorkJob {
        job_id: "j 1".into(),
        header: [0xabu8; 80],
        target: [0x01u8; 32],
        extranonce2_hex: "0a0b".into(),
        ntime_hex: "65f0".into(),
    }
}

#[test]
fn job_commands() {
    let j = sample_job();
    let parts = encode_job_parts(&j);
    assert_eq!(parts[0], format!("cmp jh {}", "ab".repeat(80)));
    assert_eq!(parts[1], format!("cmp jt {}", "01".repeat(32)));
    assert_eq!(parts[2], "cmp ja job=j+1&en2=0a0b&ntime=65f0");
    assert_eq!(
        encode_job_cmd(&j),
        format!("cmp job header={}&target={}&job=j+1&en2=0a0b&ntime=65f0", "ab".repeat(80), "01".repeat(32))
    );
    assert_eq!(urlenc("a b&c"), "a+b%26c");
}

#[test]
fn share_check_outcomes() {
    let job = warmup_job();
    assert_eq!(
        StratumClient::verify_share_against_job(&job, "xyz"),
        Err("bad nonce hex 'xyz'".to_string())
    );
    assert!(StratumClient::verify_share_against_job(&job, "0000000g").is_err());
    // The warm-up target is easy: some small nonce meets it, and then the hash does.
    let mut met = None;
    let mut missed = None;
    for n in 0u32..4096 {
        let hex = format!("{n:08x}");
        match StratumClient::verify_share_against_job(&job, &hex) {
            Ok(h) => {
                assert!(hash_meets_target(&h, &job.target));
                met.get_or_insert(hex);
            }
            Err(e) => {
                assert!(e.starts_with("hash ") && e.ends_with(" does not meet share target"));
                missed.get_or_insert(hex);
            }
        }
    }
    assert!(met.is_some() && missed.is_some());
}
