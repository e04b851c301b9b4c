//! Scenarios of the arming engine.

use bt_rearm::engine::{
    Action, Engine, Scan, ATTENTION_MS, BLIND_GAP_MAX_MS, BLIND_GAP_MS, FAST_SCAN_MS,
    KEEPALIVE_ENABLED, KEEPALIVE_GAP_MS, LOG_CAP, RETRY_GAP_MS, SETTLE_MS,
};

const PAD: &str = "C5:C5:30:98:47:5C";
const MOUSE: &str = "AA:BB:CC:DD:76:20";

/// An engine with one armed device.
fn armed_engine() -> Engine {
    let mut e = Engine::new();
    e.toggle(PAD, 0);
    e
}

#[test]
fn advertisement_from_unarmed_device_is_ignored() {
    let mut e = armed_engine();
    assert_eq!(
        e.on_advertisement(MOUSE, false, 1_000),
        Action::Skip("未布防")
    );
}

#[test]
fn advertisement_while_system_already_connected_is_ignored() {
    let mut e = armed_engine();
    assert_eq!(
        e.on_advertisement(PAD, true, 1_000),
        Action::Skip("系统已连接")
    );
}

#[test]
fn advertisement_from_armed_disconnected_device_triggers_connect() {
    let mut e = armed_engine();
    assert_eq!(
        e.on_advertisement(PAD, false, 1_000),
        Action::Connect
    );
}

#[test]
fn restored_device_that_is_already_connected_is_not_scanned_for() {
    let mut e = Engine::new();
    e.restore(vec![PAD.into()], 0);
    e.on_connection_change(PAD, true, 0);
    assert_eq!(e.scan_command(0), Scan::Stop);
}

#[test]
fn repeat_advertisement_within_throttle_window_is_ignored() {
    let mut e = armed_engine();
    assert_eq!(
        e.on_advertisement(PAD, false, 1_000),
        Action::Connect
    );
    assert_eq!(
        e.on_advertisement(
            PAD,
            false,
            1_000 + RETRY_GAP_MS - 1
        ),
        Action::Skip("连接中")
    );
}

#[test]
fn advertisement_after_throttle_window_triggers_connect_again() {
    let mut e = armed_engine();
    e.on_advertisement(PAD, false, 1_000);
    assert_eq!(
        e.on_advertisement(
            PAD,
            false,
            1_000 + RETRY_GAP_MS
        ),
        Action::Connect
    );
}

#[test]
fn advertisement_after_connection_drops_triggers_connect_again() {
    let mut e = armed_engine();
    e.on_advertisement(PAD, false, 1_000);
    e.on_connection_change(PAD, true, 1_500);
    e.on_connection_change(PAD, false, 1_800);
    assert_eq!(
        e.on_advertisement(PAD, false, 2_000),
        Action::Connect
    );
}

#[test]
fn disarmed_device_is_no_longer_acted_on() {
    let mut e = armed_engine();
    assert_eq!(e.toggle(PAD, 0), Scan::Stop);
    assert_eq!(
        e.on_advertisement(PAD, false, 1_000),
        Action::Skip("未布防")
    );
    assert!(!e.row(PAD).armed);
    assert_eq!(e.row(PAD).state, "未布防");
}

#[test]
fn toggle_drives_scan_lifecycle() {
    let mut e = Engine::new();
    assert_eq!(
        e.toggle(PAD, 0),
        Scan::Start {
            macs: vec![PAD.into()],
            fast: true
        }
    );
    let two = e.toggle(MOUSE, 0);
    match two {
        Scan::Start { mut macs, .. } => {
            macs.sort();
            let mut want =
                vec![PAD.to_string(), MOUSE.to_string()];
            want.sort();
            assert_eq!(macs, want);
        }
        other => panic!("期望重开扫描,实际 {other:?}"),
    }
    e.toggle(PAD, 0);
    assert_eq!(e.toggle(MOUSE, 0), Scan::Stop);
}

#[test]
fn restore_arms_saved_devices_without_scanning_yet() {
    let mut e = Engine::new();
    e.restore(vec![PAD.into()], 0);
    assert!(e.row(PAD).armed);
    assert_eq!(e.armed_macs(), vec![PAD.to_string()]);
    assert_eq!(
        e.on_advertisement(PAD, false, 1_000),
        Action::Connect
    );
}

#[test]
fn scan_command_reflects_current_list() {
    let mut e = Engine::new();
    assert_eq!(e.scan_command(0), Scan::Stop);
    e.toggle(PAD, 0);
    assert_eq!(
        e.scan_command(0),
        Scan::Start {
            macs: vec![PAD.into()],
            fast: true
        }
    );
}

#[test]
fn external_errors_are_recorded_in_log() {
    let mut e = Engine::new();
    e.note_external(0, "扫描失败,错误码 2".into());
    assert!(
        e.log(0).iter().any(|l| l.contains("错误码 2"))
    );
}

#[test]
fn log_is_capped() {
    let mut e = Engine::new();
    for i in 0..(LOG_CAP + 20) {
        e.note_external(i as u64, format!("第 {i} 条"));
    }
    assert_eq!(e.log(0).len(), LOG_CAP);
    assert!(
        e.log(0).iter().all(|l| !l.ends_with("第 0 条"))
    );
}

#[test]
fn connected_armed_device_wants_low_latency() {
    let mut e = armed_engine();
    assert!(
        !e.take_low_latency_request(PAD),
        "还没连上时不该动参数"
    );
    e.on_connection_change(PAD, true, 1_000);
    assert!(e.take_low_latency_request(PAD));
}

#[test]
fn low_latency_is_requested_once_per_link() {
    let mut e = armed_engine();
    e.on_connection_change(PAD, true, 1_000);
    assert!(e.take_low_latency_request(PAD));
    assert!(
        !e.take_low_latency_request(PAD),
        "同一条链路不该重复请求"
    );

    e.on_connection_change(PAD, false, 2_000);
    e.on_connection_change(PAD, true, 3_000);
    assert!(
        e.take_low_latency_request(PAD),
        "重连后要重新请求"
    );
}

#[test]
fn unarmed_device_keeps_its_own_connection_parameters() {
    let mut e = armed_engine();
    e.on_connection_change(MOUSE, true, 1_000);
    assert!(!e.take_low_latency_request(MOUSE));
}

#[test]
fn scanning_runs_at_full_duty_right_after_a_drop() {
    let mut e = armed_engine();
    e.on_connection_change(PAD, true, 1_000);
    e.scan_if_changed(1_000);
    e.on_connection_change(PAD, false, 2_000);
    assert_eq!(
        e.scan_if_changed(2_000),
        Some(Scan::Start {
            macs: vec![PAD.into()],
            fast: true
        })
    );
}

#[test]
fn scanning_falls_back_to_low_power_once_the_device_stays_away() {
    let mut e = armed_engine();
    e.on_connection_change(PAD, true, 1_000);
    e.scan_if_changed(1_000);
    e.on_connection_change(PAD, false, 2_000);
    e.scan_if_changed(2_000);
    assert_eq!(
        e.scan_if_changed(2_000 + FAST_SCAN_MS),
        Some(Scan::Start {
            macs: vec![PAD.into()],
            fast: false
        })
    );
}

#[test]
fn keepalive_is_paced_and_only_sent_while_connected() {
    let mut e = armed_engine();
    assert!(!e.keepalive_due(PAD, 0), "没连上时不该发");

    e.on_connection_change(PAD, true, 1_000);
    assert!(e.keepalive_due(PAD, 1_000));
    assert!(
        !e.keepalive_due(PAD, 1_000 + KEEPALIVE_GAP_MS - 1),
        "未到间隔不该重发"
    );
    assert!(e.keepalive_due(PAD, 1_000 + KEEPALIVE_GAP_MS));
}

#[test]
fn keepalive_is_not_sent_to_unarmed_devices() {
    let mut e = armed_engine();
    e.on_connection_change(MOUSE, true, 1_000);
    assert!(!e.keepalive_due(MOUSE, 1_000));
}

#[test]
fn hid_view_lag_does_not_restart_scanning_on_a_fresh_link() {
    let mut e = armed_engine();
    e.on_connection_change(PAD, true, 1_000);
    assert_eq!(e.scan_if_changed(0), Some(Scan::Stop));

    e.on_tick(PAD, false, 11_000);
    assert_eq!(
        e.scan_if_changed(0),
        None,
        "空窗期内不该重开扫描"
    );
}

#[test]
fn platform_view_wins_after_the_settle_window() {
    let mut e = armed_engine();
    e.on_connection_change(PAD, true, 1_000);
    let late = 1_000 + SETTLE_MS + 1;
    e.scan_if_changed(late);

    e.on_tick(PAD, false, late);
    assert_eq!(
        e.scan_if_changed(late + RETRY_GAP_MS),
        Some(Scan::Start {
            macs: vec![PAD.into()],
            fast: true
        })
    );
}

#[test]
fn tick_clears_a_stale_connected_flag_and_scanning_resumes() {
    let mut e = armed_engine();
    e.on_connection_change(PAD, true, 1_000);
    assert_eq!(e.scan_if_changed(1_000), Some(Scan::Stop));

    e.on_tick(PAD, false, 40_000);
    assert_eq!(
        e.scan_if_changed(40_000 + RETRY_GAP_MS),
        Some(Scan::Start {
            macs: vec![PAD.into()],
            fast: true
        })
    );
}

#[test]
fn advertisement_clears_a_stale_connected_flag() {
    let mut e = armed_engine();
    e.on_connection_change(PAD, true, 1_000);
    e.scan_if_changed(0);
    e.on_advertisement(PAD, false, 40_000);
    assert_eq!(e.row(PAD).state, "正在连接");
}

#[test]
fn scan_stops_once_the_armed_device_is_connected() {
    let mut e = armed_engine();
    e.on_connection_change(PAD, true, 1_000);
    assert_eq!(e.scan_if_changed(0), Some(Scan::Stop));
}

#[test]
fn scan_resumes_when_the_connection_drops() {
    let mut e = armed_engine();
    e.on_connection_change(PAD, true, 1_000);
    e.scan_if_changed(0);
    e.on_connection_change(PAD, false, 2_000);
    assert_eq!(
        e.scan_if_changed(0),
        Some(Scan::Start {
            macs: vec![PAD.into()],
            fast: true
        })
    );
}

#[test]
fn scan_is_not_reissued_while_the_target_set_is_unchanged() {
    let mut e = armed_engine();
    e.scan_if_changed(0);
    assert_eq!(e.scan_if_changed(0), None);
}

#[test]
fn scan_covers_only_the_devices_still_waiting() {
    let mut e = armed_engine();
    e.toggle(MOUSE, 0);
    e.on_connection_change(PAD, true, 1_000);
    assert_eq!(
        e.scan_if_changed(0),
        Some(Scan::Start {
            macs: vec![MOUSE.into()],
            fast: true
        })
    );
}

#[test]
fn blind_retry_backs_off_while_device_stays_absent() {
    let mut e = armed_engine();
    assert_eq!(e.on_tick(PAD, false, 0), Action::Connect);
    assert_eq!(
        e.on_tick(PAD, false, BLIND_GAP_MS),
        Action::Skip("退避中")
    );
    assert_eq!(
        e.on_tick(PAD, false, BLIND_GAP_MS * 2),
        Action::Connect
    );
}

#[test]
fn blind_retry_backoff_has_a_ceiling() {
    let mut e = armed_engine();
    let mut at = 0;
    for _ in 0..20 {
        e.on_tick(PAD, false, at);
        at += BLIND_GAP_MAX_MS;
    }
    assert_eq!(e.on_tick(PAD, false, at), Action::Connect);
}

#[test]
fn advertisement_resets_blind_retry_backoff() {
    let mut e = armed_engine();
    e.on_tick(PAD, false, 0);
    e.on_tick(PAD, false, BLIND_GAP_MS * 2);
    assert_eq!(
        e.on_advertisement(PAD, false, BLIND_GAP_MS * 10),
        Action::Connect
    );
    assert_eq!(
        e.on_tick(
            PAD,
            false,
            BLIND_GAP_MS * 10 + BLIND_GAP_MS
        ),
        Action::Connect
    );
}

#[test]
fn blind_retry_stands_down_while_system_connected() {
    let mut e = armed_engine();
    assert_eq!(
        e.on_tick(PAD, true, 0),
        Action::Skip("系统已连接")
    );
}

#[test]
fn log_lines_carry_relative_age() {
    let mut e = Engine::new();
    e.note_external(1_000, "扫描失败".into());
    assert_eq!(e.log(31_000), ["30秒前  扫描失败"]);
}

#[test]
fn repeated_line_is_aged_from_its_latest_occurrence() {
    let mut e = Engine::new();
    e.note_external(1_000, "发起连接".into());
    e.note_external(60_000, "发起连接".into());
    assert_eq!(e.log(61_000), ["1秒前  发起连接 ×2"]);
}

#[test]
fn consecutive_duplicate_lines_collapse_into_one_entry() {
    let mut e = Engine::new();
    for _ in 0..5 {
        e.note_external(1_000, "发起连接".into());
    }
    assert_eq!(e.log(1_000).len(), 1);
    assert_eq!(e.log(1_000)[0], "刚刚  发起连接 ×5");
}

#[test]
fn a_different_line_ends_the_collapse() {
    let mut e = Engine::new();
    e.note_external(0, "发起连接".into());
    e.note_external(0, "已连接".into());
    e.note_external(0, "发起连接".into());
    assert_eq!(
        e.log(0),
        [
            "刚刚  发起连接",
            "刚刚  已连接",
            "刚刚  发起连接"
        ]
    );
}

#[test]
fn decisions_are_recorded_in_log() {
    let mut e = armed_engine();
    e.on_advertisement(PAD, false, 1_000);
    e.on_advertisement(PAD, true, 20_000);
    let log = e.log(20_000);
    assert!(
        log.iter().any(|l| l.contains("连接")),
        "日志里应有发起连接的记录: {log:?}"
    );
    assert!(
        log.iter().any(|l| l.contains("系统已连接")),
        "日志里应有让路原因: {log:?}"
    );
}

#[test]
fn attention_is_silent_when_nothing_is_armed() {
    let e = Engine::new();
    assert_eq!(e.attention(false, false, 10_000_000), None);
}

#[test]
fn attention_is_silent_while_device_is_connected() {
    let mut e = armed_engine();
    e.on_connection_change(PAD, true, 1_000);
    assert_eq!(e.attention(true, true, 10_000_000), None);
}

#[test]
fn attention_asks_to_turn_bluetooth_on() {
    let e = armed_engine();
    let msg = e
        .attention(false, true, ATTENTION_MS)
        .expect("该提醒开蓝牙");
    assert!(msg.contains("蓝牙"), "{msg}");
}

#[test]
fn attention_asks_to_start_shizuku() {
    let e = armed_engine();
    let msg = e
        .attention(true, false, ATTENTION_MS)
        .expect("该提醒 Shizuku");
    assert!(msg.contains("Shizuku"), "{msg}");
}

#[test]
fn attention_prefers_bluetooth_over_shizuku() {
    let e = armed_engine();
    let msg =
        e.attention(false, false, ATTENTION_MS).unwrap();
    assert!(msg.contains("蓝牙"), "{msg}");
}

#[test]
fn attention_stays_quiet_during_normal_wait() {
    let mut e = armed_engine();
    e.on_connection_change(PAD, true, 1_000);
    e.on_connection_change(PAD, false, 2_000);
    assert_eq!(
        e.attention(true, true, 2_000 + ATTENTION_MS - 1),
        None
    );
}

#[test]
fn attention_asks_to_wake_device_after_long_wait() {
    let mut e = armed_engine();
    e.on_connection_change(PAD, true, 1_000);
    e.on_connection_change(PAD, false, 2_000);
    let msg = e
        .attention(true, true, 2_000 + ATTENTION_MS)
        .expect("该提醒去开手柄");
    assert!(msg.contains(PAD), "提醒里要指明是哪台: {msg}");
}

#[test]
fn attention_clears_once_device_comes_back() {
    let mut e = armed_engine();
    e.on_connection_change(PAD, true, 1_000);
    e.on_connection_change(PAD, false, 2_000);
    let late = 2_000 + ATTENTION_MS;
    assert!(e.attention(true, true, late).is_some());
    e.on_connection_change(PAD, true, late);
    assert_eq!(e.attention(true, true, late), None);
}

#[test]
fn attention_holds_fire_while_shizuku_is_still_binding() {
    let e = armed_engine();
    assert_eq!(e.attention(true, false, 1_000), None);
}

#[test]
fn attention_ignores_unarmed_device() {
    let mut e = Engine::new();
    e.toggle(MOUSE, 0);
    e.toggle(MOUSE, 1_000);
    assert_eq!(e.attention(true, true, 10_000_000), None);
}

#[test]
fn advertisement_does_not_reconnect_while_link_is_still_settling() {
    let mut e = armed_engine();
    e.on_connection_change(PAD, true, 1_000);
    let late = 1_000 + RETRY_GAP_MS + 1;
    assert!(
        late < 1_000 + SETTLE_MS,
        "这一刻仍在稳定窗口内"
    );
    assert_eq!(
        e.on_advertisement(PAD, false, late),
        Action::Skip("系统已连接")
    );
}

#[test]
fn tick_does_not_reconnect_while_link_is_still_settling() {
    let mut e = armed_engine();
    e.on_connection_change(PAD, true, 1_000);
    let late = 1_000 + BLIND_GAP_MS + 1;
    assert!(
        late < 1_000 + SETTLE_MS,
        "这一刻仍在稳定窗口内"
    );
    assert_eq!(
        e.on_tick(PAD, false, late),
        Action::Skip("系统已连接")
    );
}

#[test]
fn scan_is_reissued_after_the_platform_refuses_to_start_it() {
    let mut e = armed_engine();
    assert!(matches!(
        e.scan_command(1_000),
        Scan::Start { .. }
    ));
    assert_eq!(
        e.scan_if_changed(2_000),
        None,
        "没变就不重下"
    );
    e.on_scan_failed(3_000);
    assert!(
        matches!(
            e.scan_if_changed(4_000),
            Some(Scan::Start { .. })
        ),
        "知道失败之后应当重下"
    );
}

#[test]
fn low_latency_permit_comes_back_when_the_request_fails() {
    let mut e = armed_engine();
    e.on_connection_change(PAD, true, 1_000);
    assert!(e.take_low_latency_request(PAD));
    e.return_low_latency_permit(PAD);
    assert!(
        e.take_low_latency_request(PAD),
        "失败后应当还能再领一次"
    );
}

#[test]
fn scanning_pauses_while_a_connect_attempt_is_in_flight() {
    let mut e = armed_engine();
    e.on_connection_change(PAD, true, 1_000);
    e.on_connection_change(PAD, false, 2_000);
    assert!(matches!(
        e.scan_command(2_000),
        Scan::Start { .. }
    ));
    assert_eq!(
        e.on_advertisement(PAD, false, 3_000),
        Action::Connect
    );
    assert_eq!(
        e.scan_command(3_000),
        Scan::Stop,
        "发起连接后应当停扫"
    );
}

#[test]
fn scanning_resumes_when_the_attempt_did_not_land() {
    let mut e = armed_engine();
    e.on_connection_change(PAD, true, 1_000);
    e.on_connection_change(PAD, false, 2_000);
    e.on_advertisement(PAD, false, 3_000);
    assert_eq!(e.scan_command(3_000), Scan::Stop);
    assert!(
        matches!(
            e.scan_command(3_000 + RETRY_GAP_MS),
            Scan::Start { .. }
        ),
        "退避窗口过了要复扫"
    );
}

#[test]
fn one_device_being_connected_does_not_blind_the_others() {
    let mut e = armed_engine();
    e.toggle(MOUSE, 0);
    e.on_advertisement(PAD, false, 3_000);
    match e.scan_command(3_000) {
        Scan::Start { macs, .. } => {
            assert_eq!(macs, vec![MOUSE.to_string()])
        }
        other => panic!("另一台还该扫: {other:?}"),
    }
}

#[test]
fn keepalive_goes_out_when_the_switch_is_on() {
    let mut e = armed_engine();
    e.on_connection_change(PAD, true, 1_000);
    assert_eq!(
        e.take_keepalive(PAD, 1_000),
        KEEPALIVE_ENABLED,
        "对外发不发,只取决于总开关"
    );
}

#[test]
fn unpaired_device_is_not_scanned_for() {
    let mut e = armed_engine();
    e.on_unpaired(PAD, 1_000);
    assert_eq!(e.scan_command(1_000), Scan::Stop);
}

#[test]
fn unpaired_device_asks_the_user_to_pair_again() {
    let e = {
        let mut e = armed_engine();
        e.on_unpaired(PAD, 1_000);
        e
    };
    let msg = e
        .attention(true, true, 1_000)
        .expect("该提醒重新配对");
    assert!(msg.contains("配对"), "{msg}");
    assert!(msg.contains(PAD), "要指明是哪台: {msg}");
}

#[test]
fn pairing_again_puts_the_device_back_to_work() {
    let mut e = armed_engine();
    e.on_unpaired(PAD, 1_000);
    e.on_paired(PAD, 2_000);
    assert_eq!(e.attention(true, true, 2_000), None);
    assert!(matches!(
        e.scan_command(2_000),
        Scan::Start { .. }
    ));
}
