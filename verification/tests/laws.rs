//! Laws of the engine on concrete values, and its edges.

use bt_rearm::engine::{
    ago, Action, Engine, Scan, ATTENTION_MS, BLIND_GAP_MAX_MS, BLIND_GAP_MS, FAST_SCAN_MS,
    KEEPALIVE_GAP_MS, LOW_LATENCY_REFRESH_MS, RETRY_GAP_MS, SETTLE_MS,
};

const PAD: &str = "C5:C5:30:98:47:5C";
const MOUSE: &str = "AA:BB:CC:DD:76:20";

fn armed_engine() -> Engine {
    let mut e = Engine::new();
    e.toggle(PAD, 0);
    e
}

#[test]
fn unarmed_devices_leave_no_trace() {
    let mut e = armed_engine();
    let before = e.log(0);
    assert_eq!(e.on_advertisement(MOUSE, true, 10), Action::Skip("未布防"));
    assert_eq!(e.on_tick(MOUSE, true, 10), Action::Skip("未布防"));
    assert_eq!(e.log(0), before);
    assert_eq!(e.row(MOUSE).state, "未布防");
    assert!(!e.take_low_latency_request(MOUSE));
    assert!(!e.refresh_low_latency_request(MOUSE, 10));
}

#[test]
fn a_connected_unarmed_device_is_shown_as_such() {
    let mut e = Engine::new();
    e.on_connection_change(MOUSE, true, 0);
    assert_eq!(e.row(MOUSE).mac, MOUSE);
    assert!(!e.row(MOUSE).armed);
    assert_eq!(e.row(MOUSE).state, "系统已连接");
}

#[test]
fn attempts_are_spaced_even_between_timer_and_advertisement() {
    let mut e = armed_engine();
    assert_eq!(e.on_tick(PAD, false, 1_000), Action::Connect);
    assert_eq!(
        e.on_advertisement(PAD, false, 1_000 + RETRY_GAP_MS - 1),
        Action::Skip("连接中")
    );
    assert_eq!(
        e.on_tick(PAD, false, 1_000 + RETRY_GAP_MS),
        Action::Skip("退避中")
    );
    assert_eq!(
        e.on_advertisement(PAD, false, 1_000 + RETRY_GAP_MS),
        Action::Connect
    );
}

#[test]
fn a_moment_in_the_future_counts_as_fresh() {
    let mut e = armed_engine();
    assert_eq!(e.on_advertisement(PAD, false, 50_000), Action::Connect);
    assert_eq!(e.on_advertisement(PAD, false, 10), Action::Skip("连接中"));
}

#[test]
fn a_failed_attempt_keeps_the_backoff() {
    let mut e = armed_engine();
    assert_eq!(e.on_tick(PAD, false, 0), Action::Connect);
    e.on_connection_change(PAD, false, 1_000);
    assert_eq!(e.log(1_000)[2], "刚刚  C5:C5:30:98:47:5C 连接未成功,继续退避");
    assert_eq!(
        e.on_tick(PAD, false, 2 * BLIND_GAP_MS - 1),
        Action::Skip("退避中")
    );
    assert_eq!(e.on_tick(PAD, false, 2 * BLIND_GAP_MS), Action::Connect);
}

#[test]
fn the_gap_doubles_to_its_ceiling() {
    let mut e = armed_engine();
    let mut at = 0;
    assert_eq!(e.on_tick(PAD, false, at), Action::Connect);
    for gap in [20_000, 40_000, 80_000, 160_000, 300_000, BLIND_GAP_MAX_MS] {
        assert_eq!(e.on_tick(PAD, false, at + gap - 1), Action::Skip("退避中"));
        at += gap;
        assert_eq!(e.on_tick(PAD, false, at), Action::Connect);
    }
}

#[test]
fn hearing_a_connected_device_ends_the_backoff_too() {
    let mut e = armed_engine();
    assert_eq!(e.on_tick(PAD, false, 0), Action::Connect);
    assert_eq!(e.on_advertisement(PAD, true, 1_000), Action::Skip("系统已连接"));
    assert_eq!(e.on_tick(PAD, false, BLIND_GAP_MS), Action::Connect);
}

#[test]
fn the_settling_window_has_a_sharp_end() {
    let mut e = armed_engine();
    e.on_connection_change(PAD, true, 1_000);
    e.on_tick(PAD, false, 1_000 + SETTLE_MS - 1);
    assert_eq!(e.row(PAD).state, "已连接");
    assert_eq!(e.on_tick(PAD, false, 1_000 + SETTLE_MS), Action::Connect);
    assert_eq!(e.row(PAD).state, "正在连接");
}

#[test]
fn full_duty_ends_on_time() {
    let mut e = armed_engine();
    assert_eq!(
        e.scan_command(FAST_SCAN_MS - 1),
        Scan::Start { macs: vec![PAD.into()], fast: true }
    );
    assert_eq!(
        e.scan_command(FAST_SCAN_MS),
        Scan::Start { macs: vec![PAD.into()], fast: false }
    );
}

#[test]
fn one_fresh_device_keeps_the_scan_at_full_duty() {
    let mut e = armed_engine();
    e.toggle(MOUSE, FAST_SCAN_MS);
    assert_eq!(
        e.scan_command(FAST_SCAN_MS),
        Scan::Start { macs: vec![MOUSE.into(), PAD.into()], fast: true }
    );
}

#[test]
fn low_latency_is_asserted_again_in_time() {
    let mut e = armed_engine();
    assert!(!e.refresh_low_latency_request(PAD, 0));
    e.on_connection_change(PAD, true, 1_000);
    assert!(e.refresh_low_latency_request(PAD, 1_000));
    assert!(!e.take_low_latency_request(PAD));
    assert!(!e.refresh_low_latency_request(PAD, 1_000 + LOW_LATENCY_REFRESH_MS - 1));
    assert!(e.refresh_low_latency_request(PAD, 1_000 + LOW_LATENCY_REFRESH_MS));
    e.return_low_latency_permit(PAD);
    assert!(e.refresh_low_latency_request(PAD, 1_000 + LOW_LATENCY_REFRESH_MS));
}

#[test]
fn a_lost_link_opens_the_low_latency_request_again() {
    let mut e = armed_engine();
    e.on_tick(PAD, true, 0);
    assert!(e.take_low_latency_request(PAD));
    e.on_tick(PAD, false, 1_000);
    assert!(!e.take_low_latency_request(PAD));
    e.on_tick(PAD, true, 2_000);
    assert!(e.take_low_latency_request(PAD));
}

#[test]
fn keepalives_are_paced_by_the_clock() {
    let mut e = armed_engine();
    e.on_connection_change(PAD, true, 0);
    assert!(e.take_keepalive(PAD, 5));
    assert!(!e.take_keepalive(PAD, 5 + KEEPALIVE_GAP_MS - 1));
    assert!(e.take_keepalive(PAD, 5 + KEEPALIVE_GAP_MS));
}

#[test]
fn two_taps_cancel() {
    let mut e = armed_engine();
    e.toggle(MOUSE, 1);
    e.toggle(MOUSE, 2);
    assert_eq!(e.armed_macs(), [PAD]);
    assert_eq!(
        e.log(2),
        [
            "刚刚  C5:C5:30:98:47:5C 布防",
            "刚刚  AA:BB:CC:DD:76:20 布防",
            "刚刚  AA:BB:CC:DD:76:20 撤防",
        ]
    );
}

#[test]
fn restoring_counts_all_armed_devices_once() {
    let mut e = armed_engine();
    e.restore(vec![MOUSE.into(), PAD.into(), MOUSE.into()], 7);
    assert_eq!(e.armed_macs(), [MOUSE, PAD]);
    assert_eq!(e.log(7)[1], "刚刚  恢复布防 2 台");
}

#[test]
fn attention_sentences_are_exact() {
    let mut e = armed_engine();
    e.toggle(MOUSE, 0);
    let late = ATTENTION_MS;
    assert_eq!(
        e.attention(false, false, late),
        Some("蓝牙已关闭,布防中的设备无法回连".into())
    );
    assert_eq!(
        e.attention(true, false, late),
        Some("Shizuku 未就绪,回连会退回到成功率很低的普通方式".into())
    );
    assert_eq!(
        e.attention(true, true, late),
        Some(format!("{MOUSE}、{PAD} 已断开较久,自动重连没能接回,可能需要开机"))
    );
    e.on_unpaired(PAD, late);
    assert_eq!(
        e.attention(false, false, late),
        Some(format!("{PAD} 的配对记录不在了,要到系统设置里重新配对"))
    );
}

#[test]
fn a_lost_pairing_is_noted_once() {
    let mut e = Engine::new();
    e.on_unpaired(PAD, 1);
    e.on_unpaired(PAD, 2);
    assert!(e.is_unpaired(PAD));
    assert!(!e.is_unpaired(MOUSE));
    e.on_paired(PAD, 3);
    e.on_paired(PAD, 4);
    assert!(!e.is_unpaired(PAD));
    assert_eq!(
        e.log(4),
        [
            "刚刚  C5:C5:30:98:47:5C 配对记录不在了",
            "刚刚  C5:C5:30:98:47:5C 已重新配对",
        ]
    );
}

#[test]
fn pairing_again_restarts_the_wait() {
    let mut e = armed_engine();
    e.on_unpaired(PAD, 1_000);
    e.on_paired(PAD, 2 * ATTENTION_MS);
    assert_eq!(e.attention(true, true, 3 * ATTENTION_MS - 1), None);
    assert!(e.attention(true, true, 3 * ATTENTION_MS).is_some());
}

#[test]
fn a_failed_scan_is_noted_and_ordered_again() {
    let mut e = armed_engine();
    assert_eq!(e.scan_if_changed(0), None);
    e.on_scan_failed(1);
    assert_eq!(e.log(1)[1], "刚刚  扫描没能开起来,下一轮重试");
    assert_eq!(
        e.scan_if_changed(2),
        Some(Scan::Start { macs: vec![PAD.into()], fast: true })
    );
    assert_eq!(e.scan_if_changed(2), None);
}

#[test]
fn scan_instructions_compare_by_what_they_say() {
    let a = Scan::Start { macs: vec![PAD.into()], fast: true };
    let b = Scan::Start { macs: vec![PAD.into()], fast: false };
    let c = Scan::Start { macs: vec![PAD.into(), MOUSE.into()], fast: true };
    assert!(a.same(&a.clone()));
    assert!(!a.same(&b));
    assert!(!a.same(&c));
    assert!(!a.same(&Scan::Stop));
    assert!(Scan::Stop.same(&Scan::Stop.clone()));
    assert_eq!(c.clone(), c);
}

#[test]
fn ages_are_rough() {
    assert_eq!(ago(0), "刚刚");
    assert_eq!(ago(999), "刚刚");
    assert_eq!(ago(1_000), "1秒前");
    assert_eq!(ago(59_999), "59秒前");
    assert_eq!(ago(60_000), "1分前");
    assert_eq!(ago(3_599_999), "59分前");
    assert_eq!(ago(3_600_000), "1小时前");
    assert_eq!(ago(360_000_000), "100小时前");
}

#[test]
fn the_origin_of_the_clock_does_not_matter() {
    for origin in [0u64, 1 << 40] {
        let mut e = Engine::default();
        e.toggle(PAD, origin);
        assert_eq!(e.on_tick(PAD, false, origin + 1_000), Action::Connect);
        assert_eq!(e.on_tick(PAD, false, origin + 20_999), Action::Skip("退避中"));
        assert_eq!(e.on_tick(PAD, false, origin + 21_000), Action::Connect);
        assert_eq!(e.log(origin + 51_000)[1], "30秒前  C5:C5:30:98:47:5C 盲试连接 ×2");
    }
}

#[test]
fn keepalives_stay_spaced_across_links_and_taps() {
    let mut e = armed_engine();
    e.on_connection_change(PAD, true, 0);
    assert!(e.take_keepalive(PAD, 5));
    e.on_connection_change(PAD, false, 10);
    e.toggle(PAD, 20);
    e.toggle(PAD, 30);
    e.on_connection_change(PAD, true, 40);
    assert!(!e.take_keepalive(PAD, 5 + KEEPALIVE_GAP_MS - 1));
    assert!(e.take_keepalive(PAD, 5 + KEEPALIVE_GAP_MS));
}

/// The device is waited for since `start`: attention is due exactly `ATTENTION_MS` later.
fn waited_for_since(e: &Engine, start: u64) -> bool {
    e.attention(true, true, start + ATTENTION_MS - 1).is_none()
        && e.attention(true, true, start + ATTENTION_MS).is_some()
}

#[test]
fn the_wait_runs_from_its_latest_start() {
    let mut e = Engine::new();
    e.toggle(PAD, 1_000);
    assert!(waited_for_since(&e, 1_000));
    e.restore(vec![PAD.to_string()], 2_000);
    assert!(waited_for_since(&e, 2_000));
    assert_eq!(e.on_tick(PAD, false, 3_000), Action::Connect);
    e.on_connection_change(PAD, false, 4_000);
    e.on_paired(PAD, 5_000);
    assert!(waited_for_since(&e, 2_000));
    e.on_unpaired(PAD, 6_000);
    e.on_paired(PAD, 7_000);
    assert!(waited_for_since(&e, 7_000));
    e.on_connection_change(PAD, true, 8_000);
    e.on_connection_change(PAD, false, 9_000);
    assert!(waited_for_since(&e, 9_000));
    e.on_advertisement(PAD, true, 10_000);
    e.on_tick(PAD, false, 11_000);
    assert!(waited_for_since(&e, 11_000));
    e.toggle(PAD, 12_000);
    e.toggle(PAD, 13_000);
    assert!(waited_for_since(&e, 13_000));
}

#[test]
fn the_latest_attempt_is_remembered() {
    let mut e = armed_engine();
    assert_eq!(e.row(PAD).state, "等待广播");
    assert_eq!(e.on_advertisement(PAD, false, 1_000), Action::Connect);
    assert_eq!(e.row(PAD).state, "正在连接");
    e.on_connection_change(PAD, false, 2_000);
    e.on_unpaired(PAD, 2_000);
    e.on_paired(PAD, 3_000);
    e.restore(vec![PAD.to_string()], 4_000);
    assert_eq!(e.row(PAD).state, "正在连接");
    assert_eq!(e.on_advertisement(PAD, false, 8_999), Action::Skip("连接中"));
    assert_eq!(e.on_advertisement(PAD, false, 9_000), Action::Connect);
    assert_eq!(e.on_advertisement(PAD, false, 16_999), Action::Skip("连接中"));
    e.toggle(PAD, 17_000);
    e.toggle(PAD, 17_000);
    assert_eq!(e.row(PAD).state, "等待广播");
    assert_eq!(e.on_advertisement(PAD, false, 17_000), Action::Connect);
    e.on_connection_change(PAD, true, 18_000);
    e.on_connection_change(PAD, false, 19_000);
    assert_eq!(e.row(PAD).state, "等待广播");
    assert_eq!(e.on_advertisement(PAD, false, 19_000), Action::Connect);
}

#[test]
fn skipped_ticks_change_neither_gap_nor_attempt() {
    let mut e = armed_engine();
    e.on_connection_change(PAD, true, 0);
    assert_eq!(e.on_tick(PAD, false, 29_999), Action::Skip("系统已连接"));
    assert_eq!(e.on_tick(PAD, false, 30_000), Action::Connect);
    for at in [30_000, 35_000, 40_000, 49_999] {
        assert_eq!(e.on_tick(PAD, false, at), Action::Skip("退避中"));
    }
    assert_eq!(e.on_tick(PAD, false, 50_000), Action::Connect);
    for at in [60_000, 70_000, 89_999] {
        assert_eq!(e.on_tick(PAD, false, at), Action::Skip("退避中"));
    }
    assert_eq!(e.on_tick(PAD, false, 90_000), Action::Connect);
    assert_eq!(e.on_tick(PAD, false, 169_999), Action::Skip("退避中"));
    assert_eq!(e.on_tick(PAD, false, 170_000), Action::Connect);
}

#[test]
fn taps_do_not_end_the_blind_backoff() {
    let mut e = armed_engine();
    assert_eq!(e.on_tick(PAD, false, 0), Action::Connect);
    e.toggle(PAD, 1_000);
    e.toggle(PAD, 2_000);
    assert_eq!(e.on_tick(PAD, false, 2_000), Action::Connect);
    assert_eq!(e.on_tick(PAD, false, 2_000 + 4 * BLIND_GAP_MS - 1), Action::Skip("退避中"));
    assert_eq!(e.on_tick(PAD, false, 2_000 + 4 * BLIND_GAP_MS), Action::Connect);
}
