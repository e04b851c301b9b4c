//! What the engine knows, as a mathematical state, and how each event changes it.
//!
//! Devices are named by their address, a sequence of characters. Moments are milliseconds on one
//! monotonic clock whose origin does not matter.

use vstd::prelude::*;

use crate::engine::{
    ATTENTION_MS, BLIND_GAP_MAX_MS, BLIND_GAP_MS, FAST_SCAN_MS, KEEPALIVE_GAP_MS, LOG_CAP,
    LOW_LATENCY_REFRESH_MS, RETRY_GAP_MS, SETTLE_MS,
};
use crate::roster::ascending;
use crate::text::{decimal, joined};

verus! {

/// One line of the event log.
#[verifier::ext_equal]
pub struct LogLine {
    /// When it happened last.
    pub at: u64,
    pub line: Seq<char>,
    /// How often it happened in a row.
    pub repeat: usize,
}

/// A scan instruction.
#[verifier::ext_equal]
pub enum ScanView {
    Start { macs: Seq<Seq<char>>, fast: bool },
    Stop,
}

/// A decision about one device.
#[verifier::ext_equal]
pub enum Verdict {
    Connect,
    Skip(Seq<char>),
}

/// Everything the engine knows.
#[verifier::ext_equal]
pub struct State {
    /// Devices the user has armed.
    pub armed: Set<Seq<char>>,
    /// Devices that are taken to be connected.
    pub connected: Set<Seq<char>>,
    /// Devices without a pairing record.
    pub unpaired: Set<Seq<char>>,
    /// When a connection was attempted last.
    pub last_try: Map<Seq<char>, u64>,
    /// How long to wait before the next blind attempt, where it is more than at the start.
    pub blind_gap: Map<Seq<char>, u64>,
    /// When the link came up.
    pub acl_since: Map<Seq<char>, u64>,
    /// Since when the device is waited for.
    pub waiting_since: Map<Seq<char>, u64>,
    /// When a keepalive was sent last.
    pub last_keepalive: Map<Seq<char>, u64>,
    /// Devices whose present link has had its untimed low-latency request.
    pub low_latency_taken: Set<Seq<char>>,
    /// When an assertion of the low-latency parameters was claimed last.
    pub last_low_latency: Map<Seq<char>, u64>,
    /// The scan instruction given last.
    pub last_scan: Option<ScanView>,
    /// The event log, oldest line first.
    pub log: Seq<LogLine>,
}

/// Less than `window` has passed at `now` since the moment recorded for `mac`. A record from the
/// future counts as fresh; without a record there is nothing to be within.
pub open spec fn within(
    times: Map<Seq<char>, u64>,
    mac: Seq<char>,
    now: u64,
    window: u64,
) -> bool {
    times.contains_key(mac) && now - times[mac] < window
}

/// The log after `line` has happened at `now`: a line that repeats the last one is counted there,
/// any other is appended, and beyond `LOG_CAP` lines the oldest one goes.
pub open spec fn noted(log: Seq<LogLine>, now: u64, line: Seq<char>) -> Seq<LogLine> {
    if log.len() > 0 && log.last().line == line {
        let repeat = log.last().repeat;
        log.drop_last().push(
            LogLine {
                at: now,
                line,
                repeat: if repeat < usize::MAX { (repeat + 1) as usize } else { repeat },
            },
        )
    } else {
        let grown = log.push(LogLine { at: now, line, repeat: 1 });
        if grown.len() > LOG_CAP {
            grown.drop_first()
        } else {
            grown
        }
    }
}

/// The log is no longer than `LOG_CAP`, every line has happened, and no line repeats the one
/// before it.
pub open spec fn log_valid(log: Seq<LogLine>) -> bool {
    &&& log.len() <= LOG_CAP
    &&& forall|i: int| 0 <= i < log.len() ==> (#[trigger] log[i]).repeat >= 1
    &&& forall|i: int, j: int|
        0 <= i && j == i + 1 && j < log.len() ==> (#[trigger] log[i]).line != (
        #[trigger] log[j]).line
}

/// A time span in words.
pub open spec fn age(delta_ms: nat) -> Seq<char> {
    let seconds = delta_ms / 1000;
    if seconds == 0 {
        "刚刚"@
    } else if seconds < 60 {
        decimal(seconds) + "秒前"@
    } else if seconds < 3600 {
        decimal(seconds / 60) + "分前"@
    } else {
        decimal(seconds / 3600) + "小时前"@
    }
}

/// A log line as the user reads it at `now`: its age, what happened, and how often in a row.
pub open spec fn shown(entry: LogLine, now: u64) -> Seq<char> {
    let passed: nat = if now >= entry.at { (now - entry.at) as nat } else { 0 };
    let text = age(passed) + "  "@ + entry.line;
    if entry.repeat > 1 {
        text + " ×"@ + decimal(entry.repeat as nat)
    } else {
        text
    }
}

impl State {
    /// Nothing has happened yet.
    pub open spec fn initial() -> State {
        State {
            armed: Set::empty(),
            connected: Set::empty(),
            unpaired: Set::empty(),
            last_try: Map::empty(),
            blind_gap: Map::empty(),
            acl_since: Map::empty(),
            waiting_since: Map::empty(),
            last_keepalive: Map::empty(),
            low_latency_taken: Set::empty(),
            last_low_latency: Map::empty(),
            last_scan: None,
            log: Seq::empty(),
        }
    }

    /// What holds at all times: every armed device has a moment from which it is waited for; a
    /// lengthened blind gap stays between its start and its ceiling and belongs to a device that
    /// is not connected; what has been asked of a link is remembered only while the device is
    /// connected.
    pub open spec fn valid(self) -> bool {
        &&& self.armed.finite()
        &&& forall|m: Seq<char>| #[trigger]
            self.armed.contains(m) ==> self.waiting_since.contains_key(m)
        &&& forall|m: Seq<char>| #[trigger]
            self.blind_gap.contains_key(m) ==> BLIND_GAP_MS < self.blind_gap[m]
                <= BLIND_GAP_MAX_MS && !self.connected.contains(m)
        &&& forall|m: Seq<char>| #[trigger]
            self.low_latency_taken.contains(m) ==> self.connected.contains(m)
        &&& forall|m: Seq<char>| #[trigger]
            self.last_low_latency.contains_key(m) ==> self.low_latency_taken.contains(m)
        &&& log_valid(self.log)
    }

    /// The same state with one more line in its log.
    pub open spec fn note(self, now: u64, line: Seq<char>) -> State {
        State { log: noted(self.log, now, line), ..self }
    }

    // ---- connections ----
    /// The link is so fresh that the platform may not see it yet.
    pub open spec fn settling(self, mac: Seq<char>, now: u64) -> bool {
        within(self.acl_since, mac, now, SETTLE_MS)
    }

    /// The device counts as connected once the platform has said `system_connected`: either it
    /// says so, or it was connected before and its link is still settling.
    pub open spec fn link_up(self, mac: Seq<char>, system_connected: bool, now: u64) -> bool {
        system_connected || (self.connected.contains(mac) && self.settling(mac, now))
    }

    /// The state corrected by what the platform says of the connection. A denial is believed
    /// only after the settling window; then whatever was asked of the link is forgotten, and a
    /// device that was connected starts being waited for.
    pub open spec fn synced(self, mac: Seq<char>, system_connected: bool, now: u64) -> State {
        if system_connected {
            State { connected: self.connected.insert(mac), ..self }
        } else if self.settling(mac, now) {
            self
        } else {
            State {
                connected: self.connected.remove(mac),
                waiting_since: if self.connected.contains(mac) {
                    self.waiting_since.insert(mac, now)
                } else {
                    self.waiting_since
                },
                low_latency_taken: self.low_latency_taken.remove(mac),
                last_low_latency: self.last_low_latency.remove(mac),
                ..self
            }
        }
    }

    /// A connection attempt went out so recently that it may still succeed.
    pub open spec fn in_flight(self, mac: Seq<char>, now: u64) -> bool {
        within(self.last_try, mac, now, RETRY_GAP_MS)
    }

    /// How long a blind attempt has to wait after the attempt before it.
    pub open spec fn gap(self, mac: Seq<char>) -> u64 {
        if self.blind_gap.contains_key(mac) {
            self.blind_gap[mac]
        } else {
            BLIND_GAP_MS
        }
    }

    /// A blind attempt would come too early.
    pub open spec fn backing_off(self, mac: Seq<char>, now: u64) -> bool {
        within(self.last_try, mac, now, self.gap(mac))
    }

    /// The gap after one more blind attempt.
    pub open spec fn doubled_gap(self, mac: Seq<char>) -> u64 {
        if 2 * self.gap(mac) <= BLIND_GAP_MAX_MS {
            (2 * self.gap(mac)) as u64
        } else {
            BLIND_GAP_MAX_MS
        }
    }

    /// What to do about an advertisement.
    pub open spec fn advertisement_verdict(
        self,
        mac: Seq<char>,
        system_connected: bool,
        now: u64,
    ) -> Verdict {
        if !self.armed.contains(mac) {
            Verdict::Skip("未布防"@)
        } else if self.link_up(mac, system_connected, now) {
            Verdict::Skip("系统已连接"@)
        } else if self.in_flight(mac, now) {
            Verdict::Skip("连接中"@)
        } else {
            Verdict::Connect
        }
    }

    /// The state after an advertisement. An unarmed device changes nothing; from an armed one
    /// the advertisement also shows that it is there, which ends any blind backoff.
    pub open spec fn after_advertisement(
        self,
        mac: Seq<char>,
        system_connected: bool,
        now: u64,
    ) -> State {
        let heard = State {
            blind_gap: self.blind_gap.remove(mac),
            ..self.synced(mac, system_connected, now)
        };
        if !self.armed.contains(mac) {
            self
        } else if self.link_up(mac, system_connected, now) {
            heard.note(now, mac + " 系统已连接,让路"@)
        } else if self.in_flight(mac, now) {
            heard
        } else {
            State { last_try: self.last_try.insert(mac, now), ..heard }.note(
                now,
                mac + " 发起连接"@,
            )
        }
    }

    /// What to do about a device when the timer comes round.
    pub open spec fn tick_verdict(
        self,
        mac: Seq<char>,
        system_connected: bool,
        now: u64,
    ) -> Verdict {
        if !self.armed.contains(mac) {
            Verdict::Skip("未布防"@)
        } else if self.link_up(mac, system_connected, now) {
            Verdict::Skip("系统已连接"@)
        } else if self.backing_off(mac, now) {
            Verdict::Skip("退避中"@)
        } else {
            Verdict::Connect
        }
    }

    /// The state after the timer came round. A connection ends the backoff, a blind attempt
    /// doubles its gap.
    pub open spec fn after_tick(
        self,
        mac: Seq<char>,
        system_connected: bool,
        now: u64,
    ) -> State {
        let seen = self.synced(mac, system_connected, now);
        if !self.armed.contains(mac) {
            self
        } else if self.link_up(mac, system_connected, now) {
            State { blind_gap: self.blind_gap.remove(mac), ..seen }.note(
                now,
                mac + " 系统已连接,让路"@,
            )
        } else if self.backing_off(mac, now) {
            seen
        } else {
            State {
                last_try: self.last_try.insert(mac, now),
                blind_gap: self.blind_gap.insert(mac, self.doubled_gap(mac)),
                ..seen
            }.note(now, mac + " 盲试连接"@)
        }
    }

    /// The state after the link of a device came up or went down. Only a device that was taken
    /// to be connected can drop, which clears its throttle and its backoff; otherwise an attempt
    /// has failed, and the backoff goes on.
    pub open spec fn after_connection_change(
        self,
        mac: Seq<char>,
        connected: bool,
        now: u64,
    ) -> State {
        if connected {
            State {
                connected: self.connected.insert(mac),
                acl_since: self.acl_since.insert(mac, now),
                blind_gap: self.blind_gap.remove(mac),
                ..self
            }.note(now, mac + " 已连接"@)
        } else {
            let down = State {
                connected: self.connected.remove(mac),
                acl_since: self.acl_since.remove(mac),
                low_latency_taken: self.low_latency_taken.remove(mac),
                last_low_latency: self.last_low_latency.remove(mac),
                ..self
            };
            if self.connected.contains(mac) {
                State {
                    waiting_since: self.waiting_since.insert(mac, now),
                    last_try: self.last_try.remove(mac),
                    blind_gap: self.blind_gap.remove(mac),
                    ..down
                }.note(now, mac + " 断开,等待广播"@)
            } else {
                down.note(now, mac + " 连接未成功,继续退避"@)
            }
        }
    }

    // ---- what is asked of a link ----
    /// The present link of an armed device still has its untimed low-latency request.
    pub open spec fn low_latency_open(self, mac: Seq<char>) -> bool {
        &&& self.armed.contains(mac)
        &&& self.connected.contains(mac)
        &&& !self.low_latency_taken.contains(mac)
    }

    /// The state after the untimed request of the present link has been claimed.
    pub open spec fn after_low_latency(self, mac: Seq<char>) -> State {
        if self.low_latency_open(mac) {
            State { low_latency_taken: self.low_latency_taken.insert(mac), ..self }
        } else {
            self
        }
    }

    /// It is time to assert the low-latency parameters on a link of an armed device.
    pub open spec fn low_latency_due(self, mac: Seq<char>, now: u64) -> bool {
        &&& self.armed.contains(mac)
        &&& self.connected.contains(mac)
        &&& !within(self.last_low_latency, mac, now, LOW_LATENCY_REFRESH_MS)
    }

    /// The state after the parameters have been asserted, where that was due.
    pub open spec fn after_low_latency_refresh(self, mac: Seq<char>, now: u64) -> State {
        if self.low_latency_due(mac, now) {
            State {
                low_latency_taken: self.low_latency_taken.insert(mac),
                last_low_latency: self.last_low_latency.insert(mac, now),
                ..self
            }
        } else {
            self
        }
    }

    /// The state after a claimed request came back unsent.
    pub open spec fn after_low_latency_return(self, mac: Seq<char>) -> State {
        State {
            low_latency_taken: self.low_latency_taken.remove(mac),
            last_low_latency: self.last_low_latency.remove(mac),
            ..self
        }
    }

    /// It is time for a keepalive on a link of an armed device.
    pub open spec fn keepalive_due(self, mac: Seq<char>, now: u64) -> bool {
        &&& self.armed.contains(mac)
        &&& self.connected.contains(mac)
        &&& !within(self.last_keepalive, mac, now, KEEPALIVE_GAP_MS)
    }

    /// The state after a keepalive, where one was due.
    pub open spec fn after_keepalive(self, mac: Seq<char>, now: u64) -> State {
        if self.keepalive_due(mac, now) {
            State { last_keepalive: self.last_keepalive.insert(mac, now), ..self }
        } else {
            self
        }
    }

    // ---- scanning ----
    /// The device is armed and paired, not connected, and no attempt on it is in flight.
    pub open spec fn awaited(self, mac: Seq<char>, now: u64) -> bool {
        &&& self.armed.contains(mac)
        &&& !self.connected.contains(mac)
        &&& !self.unpaired.contains(mac)
        &&& !self.in_flight(mac, now)
    }

    /// The devices worth listening for.
    pub open spec fn scan_targets(self, now: u64) -> Set<Seq<char>> {
        self.armed.filter(|m: Seq<char>| self.awaited(m, now))
    }

    /// Some awaited device has been waited for only a short while.
    pub open spec fn fast_scan(self, now: u64) -> bool {
        exists|m: Seq<char>| #[trigger]
            self.awaited(m, now) && within(self.waiting_since, m, now, FAST_SCAN_MS)
    }

    /// The scan that the state calls for.
    pub open spec fn desired_scan(self, now: u64) -> ScanView {
        if self.scan_targets(now).is_empty() {
            ScanView::Stop
        } else {
            ScanView::Start {
                macs: ascending(self.scan_targets(now)),
                fast: self.fast_scan(now),
            }
        }
    }

    /// The state after the scan it calls for has been ordered.
    pub open spec fn after_scan_command(self, now: u64) -> State {
        State { last_scan: Some(self.desired_scan(now)), ..self }
    }

    /// The state after the platform failed to start a scan.
    pub open spec fn after_scan_failure(self, now: u64) -> State {
        State { last_scan: None, ..self }.note(now, "扫描没能开起来,下一轮重试"@)
    }

    // ---- arming and pairing ----
    /// The state after the user has tapped a device: arms it, or disarms it where it was armed.
    /// The scan that is then called for is ordered at once.
    pub open spec fn after_toggle(self, mac: Seq<char>, now: u64) -> State {
        let tapped = if self.armed.contains(mac) {
            State {
                armed: self.armed.remove(mac),
                last_try: self.last_try.remove(mac),
                ..self
            }.note(now, mac + " 撤防"@)
        } else {
            State {
                armed: self.armed.insert(mac),
                waiting_since: self.waiting_since.insert(mac, now),
                ..self
            }.note(now, mac + " 布防"@)
        };
        tapped.after_scan_command(now)
    }

    /// The state after a saved list has been armed again. No scan is ordered.
    pub open spec fn after_restore(self, macs: Seq<Seq<char>>, now: u64) -> State {
        let armed = self.armed.union(macs.to_set());
        State {
            armed,
            waiting_since: self.waiting_since.union_prefer_right(
                Map::new(|m: Seq<char>| macs.contains(m), |m: Seq<char>| now),
            ),
            ..self
        }.note(now, "恢复布防 "@ + decimal(armed.len()) + " 台"@)
    }

    /// The state after the pairing record of a device has gone.
    pub open spec fn after_unpaired(self, mac: Seq<char>, now: u64) -> State {
        if self.unpaired.contains(mac) {
            self
        } else {
            State { unpaired: self.unpaired.insert(mac), ..self }.note(
                now,
                mac + " 配对记录不在了"@,
            )
        }
    }

    /// The state after the pairing record of a device has come back; it is waited for from now.
    pub open spec fn after_paired(self, mac: Seq<char>, now: u64) -> State {
        if self.unpaired.contains(mac) {
            State {
                unpaired: self.unpaired.remove(mac),
                waiting_since: self.waiting_since.insert(mac, now),
                ..self
            }.note(now, mac + " 已重新配对"@)
        } else {
            self
        }
    }

    // ---- what the user sees ----
    /// Armed devices without a pairing record.
    pub open spec fn lost(self) -> Set<Seq<char>> {
        self.armed.filter(|m: Seq<char>| self.unpaired.contains(m))
    }

    /// The device is armed, not connected, and has been waited for too long.
    pub open spec fn overdue(self, mac: Seq<char>, now: u64) -> bool {
        &&& self.armed.contains(mac)
        &&& !self.connected.contains(mac)
        &&& self.waiting_since.contains_key(mac)
        &&& now - self.waiting_since[mac] >= ATTENTION_MS
    }

    /// The devices that have been waited for too long.
    pub open spec fn stale(self, now: u64) -> Set<Seq<char>> {
        self.armed.filter(|m: Seq<char>| self.overdue(m, now))
    }

    /// What only a person can put right, in words. Lost pairing records come first; everything
    /// else waits until some device is overdue.
    pub open spec fn attention(
        self,
        bt_on: bool,
        privileged_ready: bool,
        now: u64,
    ) -> Option<Seq<char>> {
        if !self.lost().is_empty() {
            Some(
                joined(ascending(self.lost()), "、"@)
                    + " 的配对记录不在了,要到系统设置里重新配对"@,
            )
        } else if self.stale(now).is_empty() {
            None
        } else if !bt_on {
            Some("蓝牙已关闭,布防中的设备无法回连"@)
        } else if !privileged_ready {
            Some("Shizuku 未就绪,回连会退回到成功率很低的普通方式"@)
        } else {
            Some(
                joined(ascending(self.stale(now)), "、"@)
                    + " 已断开较久,自动重连没能接回,可能需要开机"@,
            )
        }
    }

    /// The condition of a device in words.
    pub open spec fn condition(self, mac: Seq<char>) -> Seq<char> {
        if self.armed.contains(mac) {
            if self.connected.contains(mac) {
                "已连接"@
            } else if self.last_try.contains_key(mac) {
                "正在连接"@
            } else {
                "等待广播"@
            }
        } else if self.connected.contains(mac) {
            "系统已连接"@
        } else {
            "未布防"@
        }
    }

    /// The log as the user reads it, oldest line first.
    pub open spec fn shown_log(self, now: u64) -> Seq<Seq<char>> {
        self.log.map_values(|e: LogLine| shown(e, now))
    }
}

} // verus!
