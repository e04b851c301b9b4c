//! Laws of the engine over whole histories: what holds whatever events come in whatever order.

use vstd::prelude::*;

use crate::engine::{
    FAST_SCAN_MS, KEEPALIVE_GAP_MS, LOW_LATENCY_REFRESH_MS, RETRY_GAP_MS, SETTLE_MS,
};
use crate::model::{log_valid, noted, within, LogLine, State, Verdict};
use crate::text::decimal;

verus! {

/// Something that can happen to the engine. Each stands for one method of it.
pub enum Event {
    Toggle { mac: Seq<char> },
    Restore { macs: Seq<Seq<char>> },
    Advertisement { mac: Seq<char>, system_connected: bool },
    Tick { mac: Seq<char>, system_connected: bool },
    ConnectionChange { mac: Seq<char>, connected: bool },
    TakeLowLatency { mac: Seq<char> },
    RefreshLowLatency { mac: Seq<char> },
    ReturnLowLatency { mac: Seq<char> },
    Keepalive { mac: Seq<char> },
    ScanCommand,
    ScanFailed,
    Unpaired { mac: Seq<char> },
    Paired { mac: Seq<char> },
    Note { line: Seq<char> },
}

impl Event {
    /// The event is about the device `m`.
    pub open spec fn concerns(self, m: Seq<char>) -> bool {
        match self {
            Event::Toggle { mac } => mac == m,
            Event::Restore { macs } => macs.contains(m),
            Event::Advertisement { mac, .. } => mac == m,
            Event::Tick { mac, .. } => mac == m,
            Event::ConnectionChange { mac, .. } => mac == m,
            Event::TakeLowLatency { mac } => mac == m,
            Event::RefreshLowLatency { mac } => mac == m,
            Event::ReturnLowLatency { mac } => mac == m,
            Event::Keepalive { mac } => mac == m,
            Event::ScanCommand => false,
            Event::ScanFailed => false,
            Event::Unpaired { mac } => mac == m,
            Event::Paired { mac } => mac == m,
            Event::Note { .. } => false,
        }
    }
}

impl State {
    /// The state after `event` has happened at `now`.
    pub open spec fn after(self, event: Event, now: u64) -> State {
        match event {
            Event::Toggle { mac } => self.after_toggle(mac, now),
            Event::Restore { macs } => self.after_restore(macs, now),
            Event::Advertisement { mac, system_connected } => self.after_advertisement(
                mac,
                system_connected,
                now,
            ),
            Event::Tick { mac, system_connected } => self.after_tick(mac, system_connected, now),
            Event::ConnectionChange { mac, connected } => self.after_connection_change(
                mac,
                connected,
                now,
            ),
            Event::TakeLowLatency { mac } => self.after_low_latency(mac),
            Event::RefreshLowLatency { mac } => self.after_low_latency_refresh(mac, now),
            Event::ReturnLowLatency { mac } => self.after_low_latency_return(mac),
            Event::Keepalive { mac } => self.after_keepalive(mac, now),
            Event::ScanCommand => self.after_scan_command(now),
            Event::ScanFailed => self.after_scan_failure(now),
            Event::Unpaired { mac } => self.after_unpaired(mac, now),
            Event::Paired { mac } => self.after_paired(mac, now),
            Event::Note { line } => self.note(now, line),
        }
    }

    /// The state after all of `events` have happened, the first one first.
    pub open spec fn after_all(self, events: Seq<(Event, u64)>) -> State
        decreases events.len(),
    {
        if events.len() == 0 {
            self
        } else {
            self.after_all(events.drop_last()).after(events.last().0, events.last().1)
        }
    }

    /// `self` and `other` know the same of the device `m`.
    pub open spec fn agrees_on(self, other: State, m: Seq<char>) -> bool {
        &&& self.armed.contains(m) == other.armed.contains(m)
        &&& self.connected.contains(m) == other.connected.contains(m)
        &&& self.unpaired.contains(m) == other.unpaired.contains(m)
        &&& self.low_latency_taken.contains(m) == other.low_latency_taken.contains(m)
        &&& self.last_try.get(m) == other.last_try.get(m)
        &&& self.blind_gap.get(m) == other.blind_gap.get(m)
        &&& self.acl_since.get(m) == other.acl_since.get(m)
        &&& self.waiting_since.get(m) == other.waiting_since.get(m)
        &&& self.last_keepalive.get(m) == other.last_keepalive.get(m)
        &&& self.last_low_latency.get(m) == other.last_low_latency.get(m)
    }

    /// `event` at `now` makes the engine connect to `m`.
    pub open spec fn connects(self, event: Event, now: u64, m: Seq<char>) -> bool {
        match event {
            Event::Advertisement { mac, system_connected } => mac == m
                && self.advertisement_verdict(mac, system_connected, now) == Verdict::Connect,
            Event::Tick { mac, system_connected } => mac == m && self.tick_verdict(
                mac,
                system_connected,
                now,
            ) == Verdict::Connect,
            _ => false,
        }
    }

    /// `event` makes the engine forget when it last tried `m`: the device is disarmed, or its
    /// link drops.
    pub open spec fn forgets_attempt(self, event: Event, m: Seq<char>) -> bool {
        match event {
            Event::Toggle { mac } => mac == m && self.armed.contains(m),
            Event::ConnectionChange { mac, connected } => mac == m && !connected
                && self.connected.contains(m),
            _ => false,
        }
    }

    /// No event of the history makes the engine forget when it last tried `m`.
    pub open spec fn remembers_attempt(self, events: Seq<(Event, u64)>, m: Seq<char>) -> bool {
        forall|i: int|
            0 <= i < events.len() ==> !self.after_all(#[trigger] events.take(i)).forgets_attempt(
                events[i].0,
                m,
            )
    }

    /// `m` stays connected through the history, and no permit of it is given back.
    pub open spec fn keeps_link(self, events: Seq<(Event, u64)>, m: Seq<char>) -> bool {
        forall|i: int|
            0 <= i < events.len() ==> {
                &&& self.after_all(#[trigger] events.take(i + 1)).connected.contains(m)
                &&& events[i].0 != (Event::ReturnLowLatency { mac: m })
            }
    }
}

/// A new line leaves the log valid: never longer than its cap, no line twice in a row.
pub proof fn log_stays_valid(log: Seq<LogLine>, now: u64, line: Seq<char>)
    requires
        log_valid(log),
    ensures
        log_valid(noted(log, now, line)),
        noted(log, now, line).len() > 0,
        noted(log, now, line).last().line == line,
        noted(log, now, line).last().at == now,
{
}

/// Every event leaves a valid state valid.
#[verifier::spinoff_prover]
#[verifier::rlimit(30)]
pub proof fn every_event_keeps_the_state_valid(state: State, event: Event, now: u64)
    requires
        state.valid(),
    ensures
        state.after(event, now).valid(),
{
    let next = state.after(event, now);
    match event {
        Event::Restore { macs } => {
            vstd::seq_lib::seq_to_set_is_finite(macs);
            assert forall|m: Seq<char>| #[trigger] next.armed.contains(m) implies
                next.waiting_since.contains_key(m) by {
                if macs.to_set().contains(m) {
                    assert(macs.contains(m));
                }
            }
        },
        _ => {},
    }
}

/// Every state that the engine can reach is valid.
pub proof fn every_reachable_state_is_valid(events: Seq<(Event, u64)>)
    ensures
        State::initial().after_all(events).valid(),
    decreases events.len(),
{
    if events.len() > 0 {
        every_reachable_state_is_valid(events.drop_last());
        every_event_keeps_the_state_valid(
            State::initial().after_all(events.drop_last()),
            events.last().0,
            events.last().1,
        );
    }
}

/// A history leads from a valid state to a valid state.
pub proof fn a_history_keeps_the_state_valid(state: State, events: Seq<(Event, u64)>)
    requires
        state.valid(),
    ensures
        state.after_all(events).valid(),
    decreases events.len(),
{
    if events.len() > 0 {
        a_history_keeps_the_state_valid(state, events.drop_last());
        every_event_keeps_the_state_valid(
            state.after_all(events.drop_last()),
            events.last().0,
            events.last().1,
        );
    }
}

/// What happens to one device changes nothing that is known of another.
pub proof fn devices_do_not_affect_each_other(state: State, event: Event, now: u64, m: Seq<char>)
    requires
        !event.concerns(m),
    ensures
        state.after(event, now).agrees_on(state, m),
{
}

/// An attempt is remembered with its moment.
pub proof fn attempts_are_recorded(state: State, event: Event, now: u64, m: Seq<char>)
    requires
        state.connects(event, now, m),
    ensures
        state.after(event, now).last_try.contains_key(m),
        state.after(event, now).last_try[m] == now,
{
}

/// Until it is forgotten, the moment of the last attempt only moves forward.
proof fn lemma_attempt_moves_forward(state: State, event: Event, now: u64, m: Seq<char>)
    requires
        state.valid(),
        state.last_try.contains_key(m),
        !state.forgets_attempt(event, m),
    ensures
        state.after(event, now).last_try.contains_key(m),
        state.after(event, now).last_try[m] >= state.last_try[m],
{
}

proof fn lemma_attempts_move_forward(state: State, events: Seq<(Event, u64)>, m: Seq<char>)
    requires
        state.valid(),
        state.last_try.contains_key(m),
        state.remembers_attempt(events, m),
    ensures
        state.after_all(events).last_try.contains_key(m),
        state.after_all(events).last_try[m] >= state.last_try[m],
    decreases events.len(),
{
    if events.len() > 0 {
        let rest = events.drop_last();
        let n = events.len() - 1;
        assert(events.take(n) =~= rest);
        assert(state.remembers_attempt(rest, m)) by {
            assert forall|i: int| 0 <= i < rest.len() implies !state.after_all(
                #[trigger] rest.take(i),
            ).forgets_attempt(rest[i].0, m) by {
                assert(rest.take(i) =~= events.take(i));
            }
        }
        lemma_attempts_move_forward(state, rest, m);
        a_history_keeps_the_state_valid(state, rest);
        lemma_attempt_moves_forward(state.after_all(rest), events.last().0, events.last().1, m);
    }
}

/// Two attempts on one device lie at least `RETRY_GAP_MS` apart, whatever happens between them,
/// unless the device is disarmed or its link drops in the meantime.
pub proof fn attempts_are_spaced(
    state: State,
    first: Event,
    first_at: u64,
    between: Seq<(Event, u64)>,
    second: Event,
    second_at: u64,
    m: Seq<char>,
)
    requires
        state.valid(),
        state.connects(first, first_at, m),
        state.after(first, first_at).remembers_attempt(between, m),
        state.after(first, first_at).after_all(between).connects(second, second_at, m),
    ensures
        second_at - first_at >= RETRY_GAP_MS,
{
    let s1 = state.after(first, first_at);
    attempts_are_recorded(state, first, first_at, m);
    every_event_keeps_the_state_valid(state, first, first_at);
    lemma_attempts_move_forward(s1, between, m);
    a_history_keeps_the_state_valid(s1, between);
}

/// A link has one untimed low-latency request: once it is claimed, it cannot be claimed again for
/// as long as the device stays connected, unless it is given back.
pub proof fn one_low_latency_request_per_link(
    state: State,
    events: Seq<(Event, u64)>,
    m: Seq<char>,
)
    requires
        state.low_latency_open(m),
        state.after_low_latency(m).keeps_link(events, m),
    ensures
        !state.after_low_latency(m).after_all(events).low_latency_open(m),
{
    lemma_claim_persists(state.after_low_latency(m), events, m);
}

proof fn lemma_claim_persists(state: State, events: Seq<(Event, u64)>, m: Seq<char>)
    requires
        state.low_latency_taken.contains(m),
        state.keeps_link(events, m),
    ensures
        state.after_all(events).low_latency_taken.contains(m),
    decreases events.len(),
{
    if events.len() > 0 {
        let rest = events.drop_last();
        let n = events.len() - 1;
        assert(state.keeps_link(rest, m)) by {
            assert forall|i: int| 0 <= i < rest.len() implies {
                &&& state.after_all(#[trigger] rest.take(i + 1)).connected.contains(m)
                &&& rest[i].0 != (Event::ReturnLowLatency { mac: m })
            } by {
                assert(rest.take(i + 1) =~= events.take(i + 1));
            }
        }
        lemma_claim_persists(state, rest, m);
        assert(events.take(n + 1) =~= events);
    }
}

/// Two timed low-latency claims on one link lie at least `LOW_LATENCY_REFRESH_MS` apart, whatever
/// happens between them, for as long as the device stays connected and no permit is given back.
pub proof fn low_latency_claims_are_spaced(
    state: State,
    first_at: u64,
    between: Seq<(Event, u64)>,
    second_at: u64,
    m: Seq<char>,
)
    requires
        state.low_latency_due(m, first_at),
        state.after_low_latency_refresh(m, first_at).keeps_link(between, m),
        state.after_low_latency_refresh(m, first_at).after_all(between).low_latency_due(
            m,
            second_at,
        ),
    ensures
        second_at - first_at >= LOW_LATENCY_REFRESH_MS,
{
    lemma_low_latency_moves_forward(state.after_low_latency_refresh(m, first_at), between, m);
}

proof fn lemma_low_latency_moves_forward(state: State, events: Seq<(Event, u64)>, m: Seq<char>)
    requires
        state.last_low_latency.contains_key(m),
        state.keeps_link(events, m),
    ensures
        state.after_all(events).last_low_latency.contains_key(m),
        state.after_all(events).last_low_latency[m] >= state.last_low_latency[m],
    decreases events.len(),
{
    if events.len() > 0 {
        let rest = events.drop_last();
        let n = events.len() - 1;
        assert(state.keeps_link(rest, m)) by {
            assert forall|i: int| 0 <= i < rest.len() implies {
                &&& state.after_all(#[trigger] rest.take(i + 1)).connected.contains(m)
                &&& rest[i].0 != (Event::ReturnLowLatency { mac: m })
            } by {
                assert(rest.take(i + 1) =~= events.take(i + 1));
            }
        }
        lemma_low_latency_moves_forward(state, rest, m);
        assert(events.take(n + 1) =~= events);
    }
}

/// Two keepalives to one device lie at least `KEEPALIVE_GAP_MS` apart, whatever happens between
/// them.
pub proof fn keepalives_are_spaced(
    state: State,
    first_at: u64,
    between: Seq<(Event, u64)>,
    second_at: u64,
    m: Seq<char>,
)
    requires
        state.keepalive_due(m, first_at),
        state.after_keepalive(m, first_at).after_all(between).keepalive_due(m, second_at),
    ensures
        second_at - first_at >= KEEPALIVE_GAP_MS,
{
    lemma_keepalive_moves_forward(state.after_keepalive(m, first_at), between, m);
}

proof fn lemma_keepalive_moves_forward(state: State, events: Seq<(Event, u64)>, m: Seq<char>)
    requires
        state.last_keepalive.contains_key(m),
    ensures
        state.after_all(events).last_keepalive.contains_key(m),
        state.after_all(events).last_keepalive[m] >= state.last_keepalive[m],
    decreases events.len(),
{
    if events.len() > 0 {
        lemma_keepalive_moves_forward(state, events.drop_last(), m);
    }
}

/// What the latest report on the link of `m` said, and when it came.
pub open spec fn last_link_report(events: Seq<(Event, u64)>, m: Seq<char>) -> Option<(bool, u64)>
    decreases events.len(),
{
    if events.len() == 0 {
        None
    } else if events.last().0 == (Event::ConnectionChange { mac: m, connected: true }) {
        Some((true, events.last().1))
    } else if events.last().0 == (Event::ConnectionChange { mac: m, connected: false }) {
        Some((false, events.last().1))
    } else {
        last_link_report(events.drop_last(), m)
    }
}

/// The latest report on the link of `m` said that it is up, less than `SETTLE_MS` ago.
pub open spec fn freshly_linked(events: Seq<(Event, u64)>, m: Seq<char>, now: u64) -> bool {
    last_link_report(events, m) matches Some((up, at)) && up && now - at < SETTLE_MS
}

pub(crate) proof fn lemma_link_record(events: Seq<(Event, u64)>, m: Seq<char>)
    ensures
        State::initial().after_all(events).acl_since.get(m) == (match last_link_report(events, m) {
            Some((true, at)) => Some(at),
            _ => None,
        }),
    decreases events.len(),
{
    if events.len() > 0 {
        lemma_link_record(events.drop_last(), m);
    }
}

/// How the platform's view corrects the record of a connection, in every state that the engine can
/// reach. What it affirms is believed. What it denies is disregarded while the link is fresh;
/// otherwise the device is no longer connected, what was asked of its link is forgotten, and it is
/// waited for from now on if it was connected before. Nothing else changes, and no other device is
/// affected.
pub proof fn the_platform_corrects_the_record(
    events: Seq<(Event, u64)>,
    m: Seq<char>,
    system_connected: bool,
    now: u64,
    other: Seq<char>,
)
    ensures
        ({
            let before = State::initial().after_all(events);
            let next = before.synced(m, system_connected, now);
            let fresh = freshly_linked(events, m, now);
            &&& next.connected.contains(m) == before.link_up(m, system_connected, now)
            &&& system_connected ==> next.connected.contains(m)
            &&& !system_connected && fresh ==> next == before
            &&& !system_connected && !fresh ==> {
                &&& !next.connected.contains(m)
                &&& !next.low_latency_taken.contains(m)
                &&& !next.last_low_latency.contains_key(m)
                &&& next.waiting_since.get(m) == (if before.connected.contains(m) {
                    Some(now)
                } else {
                    before.waiting_since.get(m)
                })
            }
            &&& next == (State {
                connected: next.connected,
                waiting_since: next.waiting_since,
                low_latency_taken: next.low_latency_taken,
                last_low_latency: next.last_low_latency,
                ..before
            })
            &&& other != m ==> next.agrees_on(before, other)
        }),
{
    lemma_link_record(events, m);
}

/// The recorded moments, `d` later.
pub open spec fn later(times: Map<Seq<char>, u64>, d: u64) -> Map<Seq<char>, u64> {
    times.map_values(|t: u64| (t + d) as u64)
}

/// A log line, `d` later.
pub open spec fn line_later(entry: LogLine, d: u64) -> LogLine {
    LogLine { at: (entry.at + d) as u64, ..entry }
}

/// All recorded moments can be `d` later.
pub open spec fn can_be_later(times: Map<Seq<char>, u64>, d: u64) -> bool {
    forall|m: Seq<char>| #[trigger] times.contains_key(m) ==> times[m] + d <= u64::MAX
}

impl State {
    /// The same state on a clock that is `d` ahead.
    pub open spec fn shifted(self, d: u64) -> State {
        State {
            last_try: later(self.last_try, d),
            acl_since: later(self.acl_since, d),
            waiting_since: later(self.waiting_since, d),
            last_keepalive: later(self.last_keepalive, d),
            last_low_latency: later(self.last_low_latency, d),
            log: self.log.map_values(|e: LogLine| line_later(e, d)),
            ..self
        }
    }

    /// The moments of the state fit on a clock that is `d` ahead.
    pub open spec fn can_be_shifted(self, d: u64) -> bool {
        &&& can_be_later(self.last_try, d)
        &&& can_be_later(self.acl_since, d)
        &&& can_be_later(self.waiting_since, d)
        &&& can_be_later(self.last_keepalive, d)
        &&& can_be_later(self.last_low_latency, d)
        &&& forall|i: int| 0 <= i < self.log.len() ==> (#[trigger] self.log[i]).at + d <= u64::MAX
    }
}

proof fn lemma_noted_shifts(log: Seq<LogLine>, now: u64, line: Seq<char>, d: u64)
    requires
        now + d <= u64::MAX,
    ensures
        noted(log.map_values(|e: LogLine| line_later(e, d)), (now + d) as u64, line)
            == noted(log, now, line).map_values(|e: LogLine| line_later(e, d)),
{
    assert(noted(log.map_values(|e: LogLine| line_later(e, d)), (now + d) as u64, line) =~= noted(
        log,
        now,
        line,
    ).map_values(|e: LogLine| line_later(e, d)));
}

proof fn lemma_scan_shifts(state: State, now: u64, d: u64)
    requires
        state.can_be_shifted(d),
        now + d <= u64::MAX,
    ensures
        state.shifted(d).scan_targets((now + d) as u64) == state.scan_targets(now),
        state.shifted(d).desired_scan((now + d) as u64) == state.desired_scan(now),
        state.shifted(d).stale((now + d) as u64) == state.stale(now),
        state.shifted(d).lost() == state.lost(),
{
    let then = (now + d) as u64;
    let s = state.shifted(d);
    assert forall|m: Seq<char>| s.awaited(m, then) == state.awaited(m, now) by {}
    assert forall|m: Seq<char>| s.overdue(m, then) == state.overdue(m, now) by {}
    assert(s.scan_targets(then) =~= state.scan_targets(now));
    assert(s.stale(then) =~= state.stale(now));
    assert(s.lost() =~= state.lost());
    if state.fast_scan(now) {
        let m = choose|m: Seq<char>| #[trigger]
            state.awaited(m, now) && within(
                state.waiting_since,
                m,
                now,
                FAST_SCAN_MS,
            );
        assert(s.awaited(m, then));
    }
    if s.fast_scan(then) {
        let m = choose|m: Seq<char>| #[trigger]
            s.awaited(m, then) && within(
                s.waiting_since,
                m,
                then,
                FAST_SCAN_MS,
            );
        assert(state.awaited(m, now));
    }
}

proof fn lemma_later(times: Map<Seq<char>, u64>, mac: Seq<char>, now: u64, d: u64)
    requires
        now + d <= u64::MAX,
        can_be_later(times, d),
    ensures
        later(times.insert(mac, now), d) == later(times, d).insert(mac, (now + d) as u64),
        later(times.remove(mac), d) == later(times, d).remove(mac),
        can_be_later(times.insert(mac, now), d),
        can_be_later(times.remove(mac), d),
        forall|window: u64| #[trigger]
            within(later(times, d), mac, (now + d) as u64, window) == within(
                times,
                mac,
                now,
                window,
            ),
{
    assert(later(times.insert(mac, now), d) =~= later(times, d).insert(mac, (now + d) as u64));
    assert(later(times.remove(mac), d) =~= later(times, d).remove(mac));
}

proof fn lemma_synced_shifts(state: State, mac: Seq<char>, up: bool, now: u64, d: u64)
    requires
        state.can_be_shifted(d),
        now + d <= u64::MAX,
    ensures
        state.shifted(d).synced(mac, up, (now + d) as u64) == state.synced(mac, up, now).shifted(d),
        state.shifted(d).link_up(mac, up, (now + d) as u64) == state.link_up(mac, up, now),
        state.shifted(d).in_flight(mac, (now + d) as u64) == state.in_flight(mac, now),
        state.shifted(d).backing_off(mac, (now + d) as u64) == state.backing_off(mac, now),
{
    lemma_later(state.acl_since, mac, now, d);
    lemma_later(state.last_try, mac, now, d);
    lemma_later(state.waiting_since, mac, now, d);
    lemma_later(state.last_low_latency, mac, now, d);
    assert(state.shifted(d).synced(mac, up, (now + d) as u64) =~= state.synced(
        mac,
        up,
        now,
    ).shifted(d));
}

proof fn lemma_note_shifts(state: State, now: u64, line: Seq<char>, d: u64)
    requires
        now + d <= u64::MAX,
    ensures
        state.shifted(d).note((now + d) as u64, line) == state.note(now, line).shifted(d),
{
    lemma_noted_shifts(state.log, now, line, d);
}

proof fn lemma_decisions_shift(
    state: State,
    mac: Seq<char>,
    up: bool,
    now: u64,
    d: u64,
)
    requires
        state.can_be_shifted(d),
        now + d <= u64::MAX,
    ensures
        state.shifted(d).after_advertisement(mac, up, (now + d) as u64)
            == state.after_advertisement(mac, up, now).shifted(d),
        state.shifted(d).after_tick(mac, up, (now + d) as u64) == state.after_tick(
            mac,
            up,
            now,
        ).shifted(d),
        state.shifted(d).advertisement_verdict(mac, up, (now + d) as u64)
            == state.advertisement_verdict(mac, up, now),
        state.shifted(d).tick_verdict(mac, up, (now + d) as u64) == state.tick_verdict(
            mac,
            up,
            now,
        ),
{
    let then = (now + d) as u64;
    let synced = state.synced(mac, up, now);
    lemma_synced_shifts(state, mac, up, now, d);
    lemma_later(state.last_try, mac, now, d);
    let heard = State { blind_gap: state.blind_gap.remove(mac), ..synced };
    let tried = State { last_try: state.last_try.insert(mac, now), ..heard };
    let blind = State {
        last_try: state.last_try.insert(mac, now),
        blind_gap: state.blind_gap.insert(mac, state.doubled_gap(mac)),
        ..synced
    };
    lemma_note_shifts(heard, now, mac + " 系统已连接,让路"@, d);
    lemma_note_shifts(tried, now, mac + " 发起连接"@, d);
    lemma_note_shifts(blind, now, mac + " 盲试连接"@, d);
}

proof fn lemma_connection_change_shifts(
    state: State,
    mac: Seq<char>,
    connected: bool,
    now: u64,
    d: u64,
)
    requires
        state.can_be_shifted(d),
        now + d <= u64::MAX,
    ensures
        state.shifted(d).after_connection_change(mac, connected, (now + d) as u64)
            == state.after_connection_change(mac, connected, now).shifted(d),
{
    lemma_later(state.last_try, mac, now, d);
    lemma_later(state.acl_since, mac, now, d);
    lemma_later(state.waiting_since, mac, now, d);
    lemma_later(state.last_low_latency, mac, now, d);
    lemma_noted_shifts(state.log, now, mac + " 已连接"@, d);
    lemma_noted_shifts(state.log, now, mac + " 断开,等待广播"@, d);
    lemma_noted_shifts(state.log, now, mac + " 连接未成功,继续退避"@, d);
}

proof fn lemma_toggle_shifts(state: State, mac: Seq<char>, now: u64, d: u64)
    requires
        state.can_be_shifted(d),
        now + d <= u64::MAX,
    ensures
        state.shifted(d).after_toggle(mac, (now + d) as u64) == state.after_toggle(
            mac,
            now,
        ).shifted(d),
{
    lemma_later(state.last_try, mac, now, d);
    lemma_later(state.waiting_since, mac, now, d);
    let tapped = if state.armed.contains(mac) {
        State { armed: state.armed.remove(mac), last_try: state.last_try.remove(mac), ..state }
    } else {
        State {
            armed: state.armed.insert(mac),
            waiting_since: state.waiting_since.insert(mac, now),
            ..state
        }
    };
    let line = if state.armed.contains(mac) {
        mac + " 撤防"@
    } else {
        mac + " 布防"@
    };
    lemma_note_shifts(tapped, now, line, d);
    let noted = tapped.note(now, line);
    assert(noted.can_be_shifted(d));
    lemma_scan_shifts(noted, now, d);
}

proof fn lemma_restore_shifts(state: State, macs: Seq<Seq<char>>, now: u64, d: u64)
    requires
        state.can_be_shifted(d),
        now + d <= u64::MAX,
    ensures
        state.shifted(d).after_restore(macs, (now + d) as u64) == state.after_restore(
            macs,
            now,
        ).shifted(d),
{
    let then = (now + d) as u64;
    let armed = state.armed.union(macs.to_set());
    let line = "恢复布防 "@ + decimal(armed.len()) + " 台"@;
    lemma_noted_shifts(state.log, now, line, d);
    assert(later(
        state.waiting_since.union_prefer_right(
            Map::new(|m: Seq<char>| macs.contains(m), |m: Seq<char>| now),
        ),
        d,
    ) =~= later(state.waiting_since, d).union_prefer_right(
        Map::new(|m: Seq<char>| macs.contains(m), |m: Seq<char>| then),
    ));
}

proof fn lemma_claims_shift(state: State, mac: Seq<char>, now: u64, d: u64)
    requires
        state.can_be_shifted(d),
        now + d <= u64::MAX,
    ensures
        state.shifted(d).after_low_latency(mac) == state.after_low_latency(mac).shifted(d),
        state.shifted(d).after_low_latency_refresh(mac, (now + d) as u64)
            == state.after_low_latency_refresh(mac, now).shifted(d),
        state.shifted(d).after_low_latency_return(mac) == state.after_low_latency_return(
            mac,
        ).shifted(d),
        state.shifted(d).after_keepalive(mac, (now + d) as u64) == state.after_keepalive(
            mac,
            now,
        ).shifted(d),
{
    lemma_later(state.last_low_latency, mac, now, d);
    lemma_later(state.last_keepalive, mac, now, d);
}

proof fn lemma_pairing_shifts(state: State, mac: Seq<char>, now: u64, d: u64)
    requires
        state.can_be_shifted(d),
        now + d <= u64::MAX,
    ensures
        state.shifted(d).after_unpaired(mac, (now + d) as u64) == state.after_unpaired(
            mac,
            now,
        ).shifted(d),
        state.shifted(d).after_paired(mac, (now + d) as u64) == state.after_paired(
            mac,
            now,
        ).shifted(d),
{
    lemma_later(state.waiting_since, mac, now, d);
    lemma_noted_shifts(state.log, now, mac + " 配对记录不在了"@, d);
    lemma_noted_shifts(state.log, now, mac + " 已重新配对"@, d);
}

/// The origin of the clock does not matter: on a clock that is `d` ahead the same event has the
/// same effect, leads to the same decisions and is shown in the same words.
pub proof fn the_origin_of_the_clock_does_not_matter(state: State, event: Event, now: u64, d: u64)
    requires
        state.can_be_shifted(d),
        now + d <= u64::MAX,
    ensures
        state.shifted(d).after(event, (now + d) as u64) == state.after(event, now).shifted(d),
        forall|m: Seq<char>|
            state.shifted(d).connects(event, (now + d) as u64, m) == state.connects(event, now, m),
        forall|bt_on: bool, privileged_ready: bool|
            state.shifted(d).attention(bt_on, privileged_ready, (now + d) as u64)
                == state.attention(bt_on, privileged_ready, now),
        state.shifted(d).shown_log((now + d) as u64) == state.shown_log(now),
        state.shifted(d).desired_scan((now + d) as u64) == state.desired_scan(now),
{
    lemma_scan_shifts(state, now, d);
    assert(state.shifted(d).shown_log((now + d) as u64) =~= state.shown_log(now));
    match event {
        Event::Toggle { mac } => {
            lemma_toggle_shifts(state, mac, now, d);
        },
        Event::Restore { macs } => {
            lemma_restore_shifts(state, macs, now, d);
        },
        Event::Advertisement { mac, system_connected } => {
            lemma_decisions_shift(state, mac, system_connected, now, d);
        },
        Event::Tick { mac, system_connected } => {
            lemma_decisions_shift(state, mac, system_connected, now, d);
        },
        Event::ConnectionChange { mac, connected } => {
            lemma_connection_change_shifts(state, mac, connected, now, d);
        },
        Event::TakeLowLatency { mac } => {
            lemma_claims_shift(state, mac, now, d);
        },
        Event::RefreshLowLatency { mac } => {
            lemma_claims_shift(state, mac, now, d);
        },
        Event::ReturnLowLatency { mac } => {
            lemma_claims_shift(state, mac, now, d);
        },
        Event::Keepalive { mac } => {
            lemma_claims_shift(state, mac, now, d);
        },
        Event::ScanCommand => {},
        Event::ScanFailed => {
            lemma_noted_shifts(state.log, now, "扫描没能开起来,下一轮重试"@, d);
        },
        Event::Unpaired { mac } => {
            lemma_pairing_shifts(state, mac, now, d);
        },
        Event::Paired { mac } => {
            lemma_pairing_shifts(state, mac, now, d);
        },
        Event::Note { line } => {
            lemma_note_shifts(state, now, line, d);
        },
    }
}

} // verus!
