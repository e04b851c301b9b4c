//! What passes between the engine and the platform side.

use bt_rearm::bridge::{mac_lines, parse_saved, DeviceRow, Orders};
use bt_rearm::engine::{Engine, Scan, LOW_LATENCY_REFRESH_MS, RETRY_GAP_MS};

const PAD: &str = "C5:C5:30:98:47:5C";
const MOUSE: &str = "AA:BB:CC:DD:76:20";

fn start(macs: &[&str], fast: bool) -> Scan {
    Scan::Start { macs: macs.iter().map(|m| m.to_string()).collect(), fast }
}

#[test]
fn saved_lists_skip_empty_lines() {
    assert_eq!(parse_saved(""), Vec::<String>::new());
    assert_eq!(parse_saved("\n\n"), Vec::<String>::new());
    assert_eq!(parse_saved("a\n\nb\r\n"), ["a", "b"]);
}

#[test]
fn a_saved_list_reads_back() {
    let macs = vec![PAD.to_string(), MOUSE.to_string()];
    assert_eq!(mac_lines(&macs), format!("{PAD}\n{MOUSE}"));
    assert_eq!(parse_saved(&mac_lines(&macs)), macs);
}

#[test]
fn arming_survives_a_restart() {
    let mut before = Engine::new();
    before.toggle(PAD, 0);
    before.toggle(MOUSE, 0);
    assert_eq!(before.saved_text(), format!("{MOUSE}\n{PAD}"));
    let mut after = Engine::new();
    after.restore_saved(&before.saved_text(), 5);
    assert_eq!(after.armed_macs(), before.armed_macs());
    assert_eq!(after.log(5), ["刚刚  恢复布防 2 台"]);
}

#[test]
fn an_empty_saved_list_leaves_no_trace() {
    let mut e = Engine::new();
    e.restore_saved("\n", 5);
    assert!(e.log(5).is_empty());
    assert!(e.armed_macs().is_empty());
}

#[test]
fn rows_pair_addresses_with_names() {
    let mut e = Engine::new();
    e.toggle(PAD, 0);
    let rows = e.rows(&format!("{PAD}\t手柄\t2\r\nno tab\n{MOUSE}\t鼠标"));
    assert_eq!(
        rows,
        [
            DeviceRow {
                name: "手柄\t2".into(),
                mac: PAD.into(),
                armed: true,
                state: "等待广播".into(),
            },
            DeviceRow {
                name: "鼠标".into(),
                mac: MOUSE.into(),
                armed: false,
                state: "未布防".into(),
            },
        ]
    );
}

#[test]
fn events_come_newest_first() {
    let mut e = Engine::new();
    e.note_external(0, "一".into());
    e.note_external(1_000, "二".into());
    assert_eq!(e.events(3_601_000), ["1小时前  二", "1小时前  一"]);
    assert_eq!(e.events(120_000), ["1分前  二", "2分前  一"]);
}

#[test]
fn an_advertisement_leads_to_a_connection_and_a_pause() {
    let mut e = Engine::new();
    e.toggle(PAD, 0);
    assert_eq!(
        e.heard(PAD, false, 1_000),
        Orders { connect: true, scan: Some(Scan::Stop), low_latency: false, keepalive: false }
    );
    assert_eq!(
        e.heard(PAD, false, 2_000),
        Orders { connect: false, scan: None, low_latency: false, keepalive: false }
    );
    assert_eq!(e.scan_if_changed(1_000 + RETRY_GAP_MS), Some(start(&[PAD], true)));
}

#[test]
fn a_new_link_gets_its_low_latency_request() {
    let mut e = Engine::new();
    e.toggle(PAD, 0);
    assert_eq!(
        e.link_changed(PAD, true, 1_000),
        Orders { connect: false, scan: Some(Scan::Stop), low_latency: true, keepalive: false }
    );
    assert_eq!(
        e.link_changed(PAD, true, 1_500),
        Orders { connect: false, scan: None, low_latency: false, keepalive: false }
    );
    assert_eq!(
        e.link_changed(PAD, false, 2_000),
        Orders {
            connect: false,
            scan: Some(start(&[PAD], true)),
            low_latency: false,
            keepalive: false,
        }
    );
}

#[test]
fn the_patrol_tries_asserts_and_keeps_alive() {
    let mut e = Engine::new();
    e.toggle(PAD, 0);
    assert_eq!(
        e.patrol(PAD, false, 0),
        Orders { connect: true, scan: None, low_latency: false, keepalive: false }
    );
    assert_eq!(
        e.patrol(PAD, true, 10_000),
        Orders { connect: false, scan: None, low_latency: true, keepalive: true }
    );
    assert_eq!(
        e.patrol(PAD, true, 20_000),
        Orders { connect: false, scan: None, low_latency: false, keepalive: false }
    );
    assert_eq!(
        e.patrol(PAD, true, 10_000 + LOW_LATENCY_REFRESH_MS),
        Orders { connect: false, scan: None, low_latency: true, keepalive: false }
    );
    assert_eq!(
        e.patrol(PAD, true, 70_000),
        Orders { connect: false, scan: None, low_latency: true, keepalive: true }
    );
}

#[test]
fn the_patrol_respects_the_request_of_a_new_link() {
    let mut e = Engine::new();
    e.toggle(PAD, 0);
    assert!(e.link_changed(PAD, true, 1_000).low_latency);
    assert!(!e.patrol(PAD, true, 1_001).low_latency);
    assert!(!e.patrol(PAD, true, 1_000 + LOW_LATENCY_REFRESH_MS - 1).low_latency);
    assert!(e.patrol(PAD, true, 1_000 + LOW_LATENCY_REFRESH_MS).low_latency);
    assert!(!e.heard(PAD, true, 1_001 + LOW_LATENCY_REFRESH_MS).low_latency);
}

#[test]
fn the_patrol_respects_the_request_of_an_advertisement() {
    let mut e = Engine::new();
    e.toggle(PAD, 0);
    assert!(e.heard(PAD, true, 1_000).low_latency);
    assert!(!e.patrol(PAD, true, 1_000).low_latency);
    e.return_low_latency_permit(PAD);
    assert!(e.patrol(PAD, true, 1_000).low_latency);
}

#[test]
fn a_new_link_gets_its_request_within_the_old_window() {
    let mut e = Engine::new();
    e.toggle(PAD, 0);
    assert!(e.link_changed(PAD, true, 1_000).low_latency);
    assert!(!e.link_changed(PAD, false, 2_000).low_latency);
    assert!(e.link_changed(PAD, true, 3_000).low_latency);
}
