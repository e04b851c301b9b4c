//! Laws that tie what the engine has recorded of a device to the history that led there.

use vstd::arithmetic::power2::{lemma2_to64, lemma_pow2_unfold, pow2};
use vstd::prelude::*;

use crate::engine::{Action, Engine, Row, Scan, BLIND_GAP_MAX_MS, BLIND_GAP_MS, RETRY_GAP_MS};
use crate::history::{
    a_history_keeps_the_state_valid, every_reachable_state_is_valid, freshly_linked,
    lemma_link_record, Event,
};
use crate::model::{State, Verdict};
use crate::text::texts;

verus! {

impl State {
    /// `event` at `now` starts a wait for `m`: the device is armed, restored or paired again, or
    /// it is no longer taken to be connected.
    pub open spec fn starts_wait(self, event: Event, now: u64, m: Seq<char>) -> bool {
        ||| event == (Event::Toggle { mac: m }) && !self.armed.contains(m)
        ||| event matches Event::Restore { macs } && macs.contains(m)
        ||| event == (Event::Paired { mac: m }) && self.unpaired.contains(m)
        ||| self.connected.contains(m) && !self.after(event, now).connected.contains(m)
    }

    /// `event` at `now` ends the blind backoff of `m`: the armed device is heard or found
    /// connected, its link comes up, or a link that was up drops.
    pub open spec fn ends_backoff(self, event: Event, now: u64, m: Seq<char>) -> bool {
        match event {
            Event::Advertisement { mac, .. } => mac == m && self.armed.contains(m),
            Event::Tick { mac, system_connected } => mac == m && self.armed.contains(m)
                && self.link_up(m, system_connected, now),
            Event::ConnectionChange { mac, connected } => mac == m && (connected
                || self.connected.contains(m)),
            _ => false,
        }
    }
}

/// The moment at which the latest wait for `m` started.
pub open spec fn latest_wait_start(events: Seq<(Event, u64)>, m: Seq<char>) -> Option<u64>
    decreases events.len(),
{
    if events.len() == 0 {
        None
    } else if State::initial().after_all(events.drop_last()).starts_wait(
        events.last().0,
        events.last().1,
        m,
    ) {
        Some(events.last().1)
    } else {
        latest_wait_start(events.drop_last(), m)
    }
}

/// A device is waited for since it was last armed, restored, paired again or lost, whatever else
/// has happened.
pub proof fn the_wait_runs_from_its_latest_start(events: Seq<(Event, u64)>, m: Seq<char>)
    ensures
        State::initial().after_all(events).waiting_since.get(m) == latest_wait_start(events, m),
    decreases events.len(),
{
    if events.len() > 0 {
        the_wait_runs_from_its_latest_start(events.drop_last(), m);
    }
}

/// The moment of the latest attempt on `m` since it was last disarmed or its link last dropped.
pub open spec fn latest_attempt(events: Seq<(Event, u64)>, m: Seq<char>) -> Option<u64>
    decreases events.len(),
{
    if events.len() == 0 {
        None
    } else {
        let before = State::initial().after_all(events.drop_last());
        if before.connects(events.last().0, events.last().1, m) {
            Some(events.last().1)
        } else if before.forgets_attempt(events.last().0, m) {
            None
        } else {
            latest_attempt(events.drop_last(), m)
        }
    }
}

/// The engine remembers the latest attempt on a device until the device is disarmed or its link
/// drops, and nothing else.
pub proof fn the_latest_attempt_is_remembered(events: Seq<(Event, u64)>, m: Seq<char>)
    ensures
        State::initial().after_all(events).last_try.get(m) == latest_attempt(events, m),
    decreases events.len(),
{
    if events.len() > 0 {
        the_latest_attempt_is_remembered(events.drop_last(), m);
    }
}

/// The moment of the latest keepalive to `m`.
pub open spec fn latest_keepalive(events: Seq<(Event, u64)>, m: Seq<char>) -> Option<u64>
    decreases events.len(),
{
    if events.len() == 0 {
        None
    } else if events.last().0 == (Event::Keepalive { mac: m }) && State::initial().after_all(
        events.drop_last(),
    ).keepalive_due(m, events.last().1) {
        Some(events.last().1)
    } else {
        latest_keepalive(events.drop_last(), m)
    }
}

/// The engine remembers the latest keepalive to a device, whatever else has happened.
pub proof fn the_latest_keepalive_is_remembered(events: Seq<(Event, u64)>, m: Seq<char>)
    ensures
        State::initial().after_all(events).last_keepalive.get(m) == latest_keepalive(events, m),
    decreases events.len(),
{
    if events.len() > 0 {
        the_latest_keepalive_is_remembered(events.drop_last(), m);
    }
}

/// The moment of the latest timed low-latency claim on the present link of `m` that was not given
/// back.
pub open spec fn latest_low_latency_claim(events: Seq<(Event, u64)>, m: Seq<char>) -> Option<u64>
    decreases events.len(),
{
    if events.len() == 0 || !State::initial().after_all(events).connected.contains(m) {
        None
    } else if events.last().0 == (Event::ReturnLowLatency { mac: m }) {
        None
    } else if events.last().0 == (Event::RefreshLowLatency { mac: m })
        && State::initial().after_all(events.drop_last()).low_latency_due(m, events.last().1) {
        Some(events.last().1)
    } else {
        latest_low_latency_claim(events.drop_last(), m)
    }
}

/// The engine remembers the latest timed low-latency claim on a link until the link is lost or the
/// claim is given back, and nothing else.
pub proof fn the_latest_low_latency_claim_is_remembered(events: Seq<(Event, u64)>, m: Seq<char>)
    ensures
        State::initial().after_all(events).last_low_latency.get(m) == latest_low_latency_claim(
            events,
            m,
        ),
    decreases events.len(),
{
    every_reachable_state_is_valid(events);
    if events.len() > 0 {
        the_latest_low_latency_claim_is_remembered(events.drop_last(), m);
    }
}

/// The gap before the next blind attempt when `n` have been made in a row: it starts at
/// `BLIND_GAP_MS` and doubles with every attempt, up to `BLIND_GAP_MAX_MS`.
pub open spec fn backoff(n: nat) -> nat {
    if BLIND_GAP_MS * pow2(n) <= BLIND_GAP_MAX_MS {
        (BLIND_GAP_MS * pow2(n)) as nat
    } else {
        BLIND_GAP_MAX_MS as nat
    }
}

/// One more blind attempt doubles the gap, up to its ceiling.
pub proof fn backoff_doubles(n: nat)
    ensures
        backoff(0) == BLIND_GAP_MS,
        backoff(n + 1) == (if 2 * backoff(n) <= BLIND_GAP_MAX_MS {
            2 * backoff(n)
        } else {
            BLIND_GAP_MAX_MS as nat
        }),
{
    lemma2_to64();
    lemma_pow2_unfold(n + 1);
}

/// How many blind attempts on `m` have been made since its backoff last ended.
pub open spec fn blind_streak(events: Seq<(Event, u64)>, m: Seq<char>) -> nat
    decreases events.len(),
{
    if events.len() == 0 {
        0
    } else {
        let before = State::initial().after_all(events.drop_last());
        if before.ends_backoff(events.last().0, events.last().1, m) {
            0
        } else if before.connects(events.last().0, events.last().1, m) {
            blind_streak(events.drop_last(), m) + 1
        } else {
            blind_streak(events.drop_last(), m)
        }
    }
}

/// In every state that the engine can reach, the gap of a device is given by the number of blind
/// attempts since its backoff last ended. Failed attempts, skipped ticks and all other events leave
/// it alone.
pub proof fn the_gap_counts_the_blind_attempts(events: Seq<(Event, u64)>, m: Seq<char>)
    ensures
        State::initial().after_all(events).gap(m) == backoff(blind_streak(events, m)),
    decreases events.len(),
{
    backoff_doubles(0);
    if events.len() > 0 {
        the_gap_counts_the_blind_attempts(events.drop_last(), m);
        backoff_doubles(blind_streak(events.drop_last(), m));
    }
}

/// Ticks for `m` at the given moments, the platform denying any connection.
pub open spec fn denied_ticks(m: Seq<char>, moments: Seq<u64>) -> Seq<(Event, u64)> {
    moments.map_values(
        |t: u64| (Event::Tick { mac: m, system_connected: false }, t),
    )
}

/// The moments at which such a tick is answered with an attempt.
pub open spec fn blind_attempts(state: State, m: Seq<char>, moments: Seq<u64>) -> Seq<u64>
    decreases moments.len(),
{
    if moments.len() == 0 {
        Seq::empty()
    } else {
        let rest = moments.drop_last();
        if state.after_all(denied_ticks(m, rest)).tick_verdict(m, false, moments.last())
            == Verdict::Connect {
            blind_attempts(state, m, rest).push(moments.last())
        } else {
            blind_attempts(state, m, rest)
        }
    }
}

/// While the platform denies any connection, every blind attempt doubles the gap, up to the
/// ceiling, and is remembered as the latest; ticks that are skipped change neither.
pub proof fn blind_attempts_back_off(state: State, m: Seq<char>, moments: Seq<u64>)
    requires
        state.valid(),
        state.gap(m) == BLIND_GAP_MS,
    ensures
        ({
            let made = blind_attempts(state, m, moments);
            let end = state.after_all(denied_ticks(m, moments));
            &&& end.gap(m) == backoff(made.len())
            &&& end.last_try.get(m) == (if made.len() > 0 {
                Some(made.last())
            } else {
                state.last_try.get(m)
            })
        }),
    decreases moments.len(),
{
    backoff_doubles(0);
    if moments.len() > 0 {
        let rest = moments.drop_last();
        blind_attempts_back_off(state, m, rest);
        backoff_doubles(blind_attempts(state, m, rest).len());
        assert(denied_ticks(m, moments).drop_last() =~= denied_ticks(m, rest));
        a_history_keeps_the_state_valid(state, denied_ticks(m, rest));
    }
}

// ---- whole histories ----
/// `m` is armed after the events. A tap turns that over, a list that is restored with `m` on it arms
/// it, and nothing else matters.
pub open spec fn is_armed(events: Seq<(Event, u64)>, m: Seq<char>) -> bool
    decreases events.len(),
{
    if events.len() == 0 {
        false
    } else if events.last().0 == (Event::Toggle { mac: m }) {
        !is_armed(events.drop_last(), m)
    } else if events.last().0 matches Event::Restore { macs } && macs.contains(m) {
        true
    } else {
        is_armed(events.drop_last(), m)
    }
}

/// The latest report on the pairing record of `m` said that it has gone.
pub open spec fn is_unpaired(events: Seq<(Event, u64)>, m: Seq<char>) -> bool
    decreases events.len(),
{
    if events.len() == 0 {
        false
    } else if events.last().0 == (Event::Unpaired { mac: m }) {
        true
    } else if events.last().0 == (Event::Paired { mac: m }) {
        false
    } else {
        is_unpaired(events.drop_last(), m)
    }
}

/// `m` counts as connected after the events. A report on its link decides, armed or not. While it is
/// armed, the platform's view at an advertisement or a tick decides too: that it is connected at any
/// time, that it is not unless the link was reported up less than `SETTLE_MS` before.
pub open spec fn is_connected(events: Seq<(Event, u64)>, m: Seq<char>) -> bool
    decreases events.len(),
{
    if events.len() == 0 {
        false
    } else {
        let rest = events.drop_last();
        let now = events.last().1;
        match events.last().0 {
            Event::ConnectionChange { mac, connected } if mac == m => connected,
            Event::Advertisement { mac, system_connected } if mac == m && is_armed(rest, m) => {
                system_connected || (is_connected(rest, m) && freshly_linked(rest, m, now))
            },
            Event::Tick { mac, system_connected } if mac == m && is_armed(rest, m) => {
                system_connected || (is_connected(rest, m) && freshly_linked(rest, m, now))
            },
            _ => is_connected(rest, m),
        }
    }
}

/// Which devices are armed, unpaired and connected follows from what has happened to each of them.
pub proof fn the_records_follow_the_history(events: Seq<(Event, u64)>, m: Seq<char>)
    ensures
        State::initial().after_all(events).armed.contains(m) == is_armed(events, m),
        State::initial().after_all(events).unpaired.contains(m) == is_unpaired(events, m),
        State::initial().after_all(events).connected.contains(m) == is_connected(events, m),
    decreases events.len(),
{
    if events.len() > 0 {
        let rest = events.drop_last();
        the_records_follow_the_history(rest, m);
        lemma_link_record(rest, m);
        match events.last().0 {
            Event::Restore { macs } => {
                assert(macs.to_set().contains(m) <==> macs.contains(m));
            },
            _ => {},
        }
    }
}

/// Each call is an event of the history: it leads to the state that the event leads to, and an
/// attempt is answered exactly where the event makes the engine connect.
pub proof fn every_call_is_an_event(
    e: &mut Engine,
    mac: &str,
    flag: bool,
    now: u64,
    action: Action,
    scan: Scan,
    granted: bool,
    line: String,
    macs: Vec<String>,
)
    ensures
        ({
            let a = old(e)@;
            let z = final(e)@;
            let m = mac@;
            let heard = Event::Advertisement { mac: m, system_connected: flag };
            let tick = Event::Tick { mac: m, system_connected: flag };
            &&& call_ensures(Engine::on_advertisement, (e, mac, flag, now), action) ==> z == a.after(
                heard,
                now,
            ) && (action == Action::Connect <==> a.connects(heard, now, m))
            &&& call_ensures(Engine::on_tick, (e, mac, flag, now), action) ==> z == a.after(
                tick,
                now,
            ) && (action == Action::Connect <==> a.connects(tick, now, m))
            &&& call_ensures(Engine::on_connection_change, (e, mac, flag, now), ()) ==> z == a.after(
                Event::ConnectionChange { mac: m, connected: flag },
                now,
            )
            &&& call_ensures(Engine::toggle, (e, mac, now), scan) ==> z == a.after(
                Event::Toggle { mac: m },
                now,
            )
            &&& call_ensures(Engine::restore, (e, macs, now), ()) ==> z == a.after(
                Event::Restore { macs: texts(macs@) },
                now,
            )
            &&& call_ensures(Engine::take_low_latency_request, (e, mac), granted) ==> z == a.after(
                Event::TakeLowLatency { mac: m },
                now,
            )
            &&& call_ensures(Engine::refresh_low_latency_request, (e, mac, now), granted) ==> z
                == a.after(Event::RefreshLowLatency { mac: m }, now)
            &&& call_ensures(Engine::return_low_latency_permit, (e, mac), ()) ==> z == a.after(
                Event::ReturnLowLatency { mac: m },
                now,
            )
            &&& call_ensures(Engine::take_keepalive, (e, mac, now), granted) ==> z == a.after(
                Event::Keepalive { mac: m },
                now,
            )
            &&& call_ensures(Engine::scan_command, (e, now), scan) ==> z == a.after(
                Event::ScanCommand,
                now,
            )
            &&& call_ensures(Engine::on_scan_failed, (e, now), ()) ==> z == a.after(
                Event::ScanFailed,
                now,
            )
            &&& call_ensures(Engine::on_unpaired, (e, mac, now), ()) ==> z == a.after(
                Event::Unpaired { mac: m },
                now,
            )
            &&& call_ensures(Engine::on_paired, (e, mac, now), ()) ==> z == a.after(
                Event::Paired { mac: m },
                now,
            )
            &&& call_ensures(Engine::note_external, (e, now, line), ()) ==> z == a.after(
                Event::Note { line: line@ },
                now,
            )
        }),
{
}

/// Which attempts go out, told by the history alone. An advertisement of an armed device that does
/// not count as connected is answered with one unless the latest attempt is less than
/// `RETRY_GAP_MS` ago; a tick, unless it is less than the gap ago that belongs to the blind attempts
/// made since the device last showed itself.
pub proof fn attempts_follow_the_history(
    e: &mut Engine,
    events: Seq<(Event, u64)>,
    mac: &str,
    up: bool,
    now: u64,
    r: Action,
)
    requires
        old(e)@ == State::initial().after_all(events),
    ensures
        ({
            let m = mac@;
            let away = is_armed(events, m) && !up && !(is_connected(events, m) && freshly_linked(
                events,
                m,
                now,
            ));
            let last = latest_attempt(events, m);
            &&& call_ensures(Engine::on_advertisement, (e, mac, up, now), r) ==> (r
                == Action::Connect <==> away && (last matches Some(t) ==> now - t >= RETRY_GAP_MS))
            &&& call_ensures(Engine::on_tick, (e, mac, up, now), r) ==> (r == Action::Connect
                <==> away && (last matches Some(t) ==> now - t >= backoff(
                blind_streak(events, m),
            )))
        }),
{
    let m = mac@;
    the_records_follow_the_history(events, m);
    lemma_link_record(events, m);
    the_latest_attempt_is_remembered(events, m);
    the_gap_counts_the_blind_attempts(events, m);
}

/// What a row says, told by the history alone.
pub proof fn rows_follow_the_history(e: &Engine, events: Seq<(Event, u64)>, mac: &str, r: Row)
    requires
        e@ == State::initial().after_all(events),
        call_ensures(Engine::row, (e, mac), r),
    ensures
        r.armed == is_armed(events, mac@),
        r.state@ == (match (is_armed(events, mac@), is_connected(events, mac@)) {
            (true, true) => "已连接"@,
            (true, false) => if latest_attempt(events, mac@) is Some {
                "正在连接"@
            } else {
                "等待广播"@
            },
            (false, true) => "系统已连接"@,
            (false, false) => "未布防"@,
        }),
{
    the_records_follow_the_history(events, mac@);
    the_latest_attempt_is_remembered(events, mac@);
}

} // verus!
