//! Laws that relate the calls of the engine to each other.

use vstd::prelude::*;

use crate::bridge::saved_list;
use crate::engine::{
    ATTENTION_MS, BLIND_GAP_MAX_MS, BLIND_GAP_MS, FAST_SCAN_MS, KEEPALIVE_GAP_MS,
    LOW_LATENCY_REFRESH_MS, RETRY_GAP_MS, SETTLE_MS,
};
use crate::history::{every_event_keeps_the_state_valid, Event};
use crate::model::{within, LogLine, ScanView, State, Verdict};
use crate::roster::{ascending, lemma_ascending_finite, strictly_ascending};
use crate::text::{joined, lemma_before_first_at, lines};

verus! {

// ---- what is left alone ----
/// A device that is not armed is left alone: neither an advertisement nor the timer changes
/// anything, and nothing is asked of its link.
pub proof fn unarmed_devices_are_left_alone(state: State, mac: Seq<char>, up: bool, now: u64)
    requires
        !state.armed.contains(mac),
    ensures
        state.advertisement_verdict(mac, up, now) == Verdict::Skip("未布防"@),
        state.after_advertisement(mac, up, now) == state,
        state.tick_verdict(mac, up, now) == Verdict::Skip("未布防"@),
        state.after_tick(mac, up, now) == state,
        !state.low_latency_open(mac),
        state.after_low_latency(mac) == state,
        !state.low_latency_due(mac, now),
        state.after_low_latency_refresh(mac, now) == state,
        !state.keepalive_due(mac, now),
        state.after_keepalive(mac, now) == state,
        !state.scan_targets(now).contains(mac),
        !state.lost().contains(mac),
        !state.stale(now).contains(mac),
{
}

/// While the platform holds a connection, the engine stands aside, and it takes the device to be
/// connected from then on.
pub proof fn a_system_connection_is_respected(state: State, mac: Seq<char>, now: u64)
    requires
        state.armed.contains(mac),
    ensures
        state.advertisement_verdict(mac, true, now) == Verdict::Skip("系统已连接"@),
        state.tick_verdict(mac, true, now) == Verdict::Skip("系统已连接"@),
        state.after_advertisement(mac, true, now).connected.contains(mac),
        state.after_tick(mac, true, now).connected.contains(mac),
        state.after_advertisement(mac, true, now).log.last().line == mac
            + " 系统已连接,让路"@,
        state.after_tick(mac, true, now).log.last().line == mac + " 系统已连接,让路"@,
{
}

// ---- attempts ----
/// An attempt goes out only for an armed device that is not connected; it is remembered and
/// logged.
pub proof fn an_attempt_has_its_reasons(state: State, mac: Seq<char>, up: bool, now: u64)
    ensures
        state.advertisement_verdict(mac, up, now) == Verdict::Connect ==> {
            let next = state.after_advertisement(mac, up, now);
            &&& state.armed.contains(mac) && !up && !next.connected.contains(mac)
            &&& next.last_try.contains_key(mac) && next.last_try[mac] == now
            &&& next.log.last().line == mac + " 发起连接"@
        },
        state.tick_verdict(mac, up, now) == Verdict::Connect ==> {
            let next = state.after_tick(mac, up, now);
            &&& state.armed.contains(mac) && !up && !next.connected.contains(mac)
            &&& next.last_try.contains_key(mac) && next.last_try[mac] == now
            &&& next.log.last().line == mac + " 盲试连接"@
        },
{
}

/// After an attempt, advertisements are not acted on within the retry window, and are acted on
/// again as soon as it is over.
pub proof fn an_attempt_is_not_disturbed(
    state: State,
    mac: Seq<char>,
    first: u64,
    second: u64,
)
    requires
        state.valid(),
        state.advertisement_verdict(mac, false, first) == Verdict::Connect,
    ensures
        second - first < RETRY_GAP_MS ==> {
            &&& state.after_advertisement(mac, false, first).advertisement_verdict(
                mac,
                false,
                second,
            ) == Verdict::Skip("连接中"@)
            &&& state.after_advertisement(mac, false, first).tick_verdict(mac, false, second)
                == Verdict::Skip("退避中"@)
        },
        second - first >= RETRY_GAP_MS ==> state.after_advertisement(
            mac,
            false,
            first,
        ).advertisement_verdict(mac, false, second) == Verdict::Connect,
{
}

/// When the link of an armed device drops, the next advertisement makes the engine connect,
/// whenever it comes and however recently an attempt went out. This is what the engine is for.
pub proof fn a_dropped_device_is_taken_back_at_once(
    state: State,
    mac: Seq<char>,
    dropped: u64,
    heard: u64,
)
    requires
        state.armed.contains(mac),
        state.connected.contains(mac),
    ensures
        state.after_connection_change(mac, false, dropped).advertisement_verdict(mac, false, heard)
            == Verdict::Connect,
        state.after_connection_change(mac, false, dropped).tick_verdict(mac, false, heard)
            == Verdict::Connect,
{
}

/// A failed attempt is no drop: neither the throttle nor the backoff is cleared.
pub proof fn a_failed_attempt_keeps_the_backoff(state: State, mac: Seq<char>, now: u64)
    requires
        !state.connected.contains(mac),
    ensures
        state.after_connection_change(mac, false, now).last_try == state.last_try,
        state.after_connection_change(mac, false, now).blind_gap == state.blind_gap,
        state.after_connection_change(mac, false, now).waiting_since == state.waiting_since,
{
}

/// A blind attempt doubles the gap up to the ceiling; the timer stays quiet until it is over.
pub proof fn a_blind_attempt_doubles_the_gap(
    state: State,
    mac: Seq<char>,
    first: u64,
    second: u64,
)
    requires
        state.valid(),
        state.tick_verdict(mac, false, first) == Verdict::Connect,
    ensures
        state.after_tick(mac, false, first).gap(mac) == (if 2 * state.gap(mac)
            <= BLIND_GAP_MAX_MS {
            2 * state.gap(mac)
        } else {
            BLIND_GAP_MAX_MS as int
        }),
        state.after_tick(mac, false, first).tick_verdict(mac, false, second) == (if second - first
            < state.doubled_gap(mac) {
            Verdict::Skip("退避中"@)
        } else {
            Verdict::Connect
        }),
{
}

/// Blind attempts never cease: when the ceiling of the gap has passed since the last attempt, an
/// armed device that is not connected is tried again.
pub proof fn blind_attempts_never_cease(state: State, mac: Seq<char>, now: u64)
    requires
        state.valid(),
        state.armed.contains(mac),
        !state.link_up(mac, false, now),
        state.last_try.contains_key(mac) ==> now - state.last_try[mac] >= BLIND_GAP_MAX_MS,
    ensures
        state.tick_verdict(mac, false, now) == Verdict::Connect,
{
}

/// Hearing an armed device, or its connection, puts the blind gap back to its start.
pub proof fn presence_ends_the_backoff(state: State, mac: Seq<char>, up: bool, now: u64)
    ensures
        state.armed.contains(mac) ==> state.after_advertisement(mac, up, now).gap(mac)
            == BLIND_GAP_MS,
        state.armed.contains(mac) ==> state.after_tick(mac, true, now).gap(mac) == BLIND_GAP_MS,
        state.after_connection_change(mac, true, now).gap(mac) == BLIND_GAP_MS,
{
}

// ---- fresh links ----
/// Within the settling window of a fresh link the platform's denial changes nothing about the
/// connection, and nothing is attempted.
pub proof fn a_fresh_link_is_believed(
    state: State,
    mac: Seq<char>,
    linked: u64,
    asked: u64,
)
    requires
        state.armed.contains(mac),
        asked - linked < SETTLE_MS,
    ensures
        ({
            let fresh = state.after_connection_change(mac, true, linked);
            &&& fresh.advertisement_verdict(mac, false, asked) == Verdict::Skip("系统已连接"@)
            &&& fresh.tick_verdict(mac, false, asked) == Verdict::Skip("系统已连接"@)
            &&& fresh.after_advertisement(mac, false, asked).connected.contains(mac)
            &&& fresh.after_tick(mac, false, asked).connected.contains(mac)
            &&& forall|now: u64| !fresh.after_tick(mac, false, asked).scan_targets(now).contains(mac)
        }),
{
}

/// After the settling window the platform's denial counts: the device is no longer taken to be
/// connected, and it is waited for from that moment.
pub proof fn the_platform_wins_after_the_window(
    state: State,
    mac: Seq<char>,
    linked: u64,
    asked: u64,
)
    requires
        state.armed.contains(mac),
        asked - linked >= SETTLE_MS,
    ensures
        ({
            let fresh = state.after_connection_change(mac, true, linked);
            &&& !fresh.after_advertisement(mac, false, asked).connected.contains(mac)
            &&& !fresh.after_tick(mac, false, asked).connected.contains(mac)
            &&& fresh.after_tick(mac, false, asked).waiting_since[mac] == asked
            &&& fresh.after_advertisement(mac, false, asked).waiting_since[mac] == asked
        }),
{
}

// ---- scanning ----
/// A scan lists each device that is waited for once, in ascending order, and no other; there is
/// no scan exactly where no device is waited for.
pub proof fn a_scan_lists_what_is_awaited(state: State, now: u64)
    requires
        state.armed.finite(),
    ensures
        match state.desired_scan(now) {
            ScanView::Start { macs, fast } => {
                &&& macs.len() > 0
                &&& strictly_ascending(macs)
                &&& forall|m: Seq<char>| macs.contains(m) <==> state.awaited(m, now)
                &&& fast <==> exists|m: Seq<char>|
                    macs.contains(m) && within(state.waiting_since, m, now, FAST_SCAN_MS)
            },
            ScanView::Stop => forall|m: Seq<char>| !state.awaited(m, now),
        },
{
    let targets = state.scan_targets(now);
    assert(targets.subset_of(state.armed));
    vstd::set_lib::lemma_set_subset_finite(state.armed, targets);
    lemma_ascending_finite(targets);
    let q = ascending(targets);
    assert forall|m: Seq<char>| q.contains(m) <==> state.awaited(m, now) by {
        assert(q.to_set().contains(m) <==> targets.contains(m));
    }
    if targets.is_empty() {
        assert forall|m: Seq<char>| !state.awaited(m, now) by {
            assert(!targets.contains(m));
        }
    } else {
        if q.len() == 0 {
            assert(q.to_set() =~= Set::empty());
        }
        if state.fast_scan(now) {
            let m = choose|m: Seq<char>| #[trigger]
                state.awaited(m, now) && within(state.waiting_since, m, now, FAST_SCAN_MS);
            assert(q.contains(m));
        }
        if exists|m: Seq<char>| q.contains(m) && within(state.waiting_since, m, now, FAST_SCAN_MS) {
            let m = choose|m: Seq<char>|
                q.contains(m) && within(state.waiting_since, m, now, FAST_SCAN_MS);
            assert(state.awaited(m, now));
        }
    }
}

/// What is connected, without a pairing record, or under an attempt in flight is not scanned for.
pub proof fn no_scan_for_what_cannot_profit(state: State, mac: Seq<char>, now: u64)
    requires
        state.valid(),
        state.connected.contains(mac) || state.unpaired.contains(mac) || state.in_flight(mac, now),
    ensures
        match state.desired_scan(now) {
            ScanView::Start { macs, .. } => !macs.contains(mac),
            ScanView::Stop => true,
        },
{
    a_scan_lists_what_is_awaited(state, now);
}

proof fn lemma_scan_of_commanded(state: State, now: u64)
    ensures
        state.after_scan_command(now).desired_scan(now) == state.desired_scan(now),
{
    let s = state.after_scan_command(now);
    assert forall|m: Seq<char>| s.awaited(m, now) == state.awaited(m, now) by {}
    assert(s.scan_targets(now) =~= state.scan_targets(now));
    if state.fast_scan(now) {
        let m = choose|m: Seq<char>| #[trigger]
            state.awaited(m, now) && within(state.waiting_since, m, now, FAST_SCAN_MS);
        assert(s.awaited(m, now));
    }
    if s.fast_scan(now) {
        let m = choose|m: Seq<char>| #[trigger]
            s.awaited(m, now) && within(s.waiting_since, m, now, FAST_SCAN_MS);
        assert(state.awaited(m, now));
    }
}

/// A scan that was just ordered is not ordered again; one that failed is.
pub proof fn a_scan_is_ordered_once_unless_it_fails(state: State, now: u64, failed: u64, later: u64)
    ensures
        state.after_scan_command(now).scan_change(now) is None,
        state.after_scan_failure(failed).scan_change(later) == Some(
            state.after_scan_failure(failed).desired_scan(later),
        ),
{
    lemma_scan_of_commanded(state, now);
}

/// A tap orders the scan that the new list calls for.
pub proof fn a_tap_orders_the_scan_it_calls_for(state: State, mac: Seq<char>, now: u64)
    ensures
        state.after_toggle(mac, now).last_scan == Some(
            state.after_toggle(mac, now).desired_scan(now),
        ),
{
    let tapped = if state.armed.contains(mac) {
        State {
            armed: state.armed.remove(mac),
            last_try: state.last_try.remove(mac),
            ..state
        }.note(now, mac + " 撤防"@)
    } else {
        State {
            armed: state.armed.insert(mac),
            waiting_since: state.waiting_since.insert(mac, now),
            ..state
        }.note(now, mac + " 布防"@)
    };
    lemma_scan_of_commanded(tapped, now);
}

/// A paired device whose link drops is scanned for from that moment, at full duty as long as
/// `FAST_SCAN_MS` have not passed.
pub proof fn a_dropped_device_is_scanned_for(
    state: State,
    mac: Seq<char>,
    dropped: u64,
    now: u64,
)
    requires
        state.valid(),
        state.armed.contains(mac),
        state.connected.contains(mac),
        !state.unpaired.contains(mac),
    ensures
        match state.after_connection_change(mac, false, dropped).desired_scan(now) {
            ScanView::Start { macs, fast } => macs.contains(mac) && (now - dropped < FAST_SCAN_MS
                ==> fast),
            ScanView::Stop => false,
        },
{
    let down = state.after_connection_change(mac, false, dropped);
    every_event_keeps_the_state_valid(
        state,
        Event::ConnectionChange { mac, connected: false },
        dropped,
    );
    assert(down.awaited(mac, now));
    a_scan_lists_what_is_awaited(down, now);
}

/// Once every device that is waited for has been away for `FAST_SCAN_MS`, scanning saves power.
pub proof fn scanning_saves_power_in_the_end(state: State, now: u64)
    requires
        forall|m: Seq<char>| #[trigger]
            state.awaited(m, now) && state.waiting_since.contains_key(m) ==> now
                - state.waiting_since[m] >= FAST_SCAN_MS,
    ensures
        match state.desired_scan(now) {
            ScanView::Start { fast, .. } => !fast,
            ScanView::Stop => true,
        },
{
}

/// Scanning for a device pauses while an attempt on it is in flight and resumes when the retry
/// window is over; the other devices are not affected.
pub proof fn scanning_makes_way_for_an_attempt(
    state: State,
    mac: Seq<char>,
    tried: u64,
    now: u64,
)
    requires
        state.valid(),
        state.advertisement_verdict(mac, false, tried) == Verdict::Connect,
        !state.unpaired.contains(mac),
    ensures
        state.after_advertisement(mac, false, tried).awaited(mac, now) == (now - tried
            >= RETRY_GAP_MS),
        forall|m: Seq<char>|
            m != mac ==> state.after_advertisement(mac, false, tried).awaited(m, now)
                == state.awaited(m, now),
{
}

// ---- what is asked of a link ----
/// The untimed low-latency request is for connected devices; it is open on every new link, closed
/// once claimed, and open again when it is given back.
pub proof fn a_low_latency_request_belongs_to_a_link(
    state: State,
    mac: Seq<char>,
    dropped: u64,
    linked: u64,
)
    requires
        state.armed.contains(mac),
    ensures
        !state.connected.contains(mac) ==> !state.low_latency_open(mac),
        !state.after_low_latency(mac).low_latency_open(mac),
        state.connected.contains(mac) ==> state.after_low_latency(mac).after_low_latency_return(
            mac,
        ).low_latency_open(mac),
        state.after_connection_change(mac, false, dropped).after_connection_change(
            mac,
            true,
            linked,
        ).low_latency_open(mac),
{
}

/// The low-latency parameters are asserted again exactly when `LOW_LATENCY_REFRESH_MS` have passed.
pub proof fn low_latency_is_asserted_again(
    state: State,
    mac: Seq<char>,
    first: u64,
    second: u64,
)
    requires
        state.low_latency_due(mac, first),
    ensures
        state.after_low_latency_refresh(mac, first).low_latency_due(mac, second) == (second - first
            >= LOW_LATENCY_REFRESH_MS),
        state.after_low_latency_refresh(mac, first).after_low_latency_return(mac).low_latency_due(
            mac,
            second,
        ),
{
}

/// An event that claims the low-latency parameters starts the window that the patrol respects: the
/// patrol claims them for a device that stays connected exactly when the window is over, and never
/// earlier.
pub proof fn events_and_patrol_share_one_window(
    state: State,
    mac: Seq<char>,
    claimed: u64,
    up: bool,
    now: u64,
)
    requires
        state.low_latency_due(mac, claimed),
    ensures
        state.followed_up(mac, claimed).after_tick(mac, up, now).low_latency_due(mac, now) == (
        state.link_up(mac, up, now) && now - claimed >= LOW_LATENCY_REFRESH_MS),
{
}

/// Keepalives go to connected devices and come exactly when `KEEPALIVE_GAP_MS` have passed.
pub proof fn keepalives_are_paced(state: State, mac: Seq<char>, first: u64, second: u64)
    ensures
        !state.connected.contains(mac) ==> !state.keepalive_due(mac, first),
        state.keepalive_due(mac, first) ==> state.after_keepalive(mac, first).keepalive_due(
            mac,
            second,
        ) == (second - first >= KEEPALIVE_GAP_MS),
{
}

// ---- the list ----
/// Two taps leave the armed devices as they were.
pub proof fn two_taps_cancel(state: State, mac: Seq<char>, first: u64, second: u64)
    ensures
        state.after_toggle(mac, first).armed.contains(mac) == !state.armed.contains(mac),
        state.after_toggle(mac, first).after_toggle(mac, second).armed == state.armed,
{
    assert(state.after_toggle(mac, first).after_toggle(mac, second).armed =~= state.armed);
}

/// Restoring a list arms its devices, keeps what was armed, and orders no scan.
pub proof fn restoring_arms_without_scanning(
    state: State,
    macs: Seq<Seq<char>>,
    now: u64,
    m: Seq<char>,
)
    ensures
        state.after_restore(macs, now).armed.contains(m) == (state.armed.contains(m)
            || macs.contains(m)),
        macs.contains(m) ==> state.after_restore(macs, now).waiting_since[m] == now,
        state.after_restore(macs, now).last_scan == state.last_scan,
        state.after_restore(macs, now).connected == state.connected,
{
    assert(macs.to_set().contains(m) == macs.contains(m));
}

proof fn lemma_joined_front(parts: Seq<Seq<char>>, sep: Seq<char>)
    requires
        parts.len() >= 2,
    ensures
        joined(parts, sep) == parts[0] + sep + joined(parts.drop_first(), sep),
    decreases parts.len(),
{
    let rest = parts.drop_first();
    assert(rest.last() == parts.last());
    if parts.len() == 2 {
        assert(parts.drop_last().len() == 1);
        assert(parts.drop_last()[0] == parts[0]);
        assert(rest.len() == 1);
        assert(joined(parts.drop_last(), sep) == parts[0]);
        assert(joined(rest, sep) == rest[0]);
    } else {
        lemma_joined_front(parts.drop_last(), sep);
        assert(parts.drop_last().drop_first() =~= rest.drop_last());
        assert(joined(rest, sep) == joined(rest.drop_last(), sep) + sep + rest.last());
        assert(joined(parts, sep) =~= parts[0] + sep + joined(rest, sep));
    }
}

/// Every part of a joined text stands in it.
proof fn lemma_joined_mentions(parts: Seq<Seq<char>>, sep: Seq<char>, i: int)
    requires
        0 <= i < parts.len(),
    ensures
        mentions(joined(parts, sep), parts[i]),
    decreases parts.len(),
{
    let none = Seq::<char>::empty();
    if parts.len() == 1 {
        assert(joined(parts, sep) =~= none + parts[i] + none);
    } else if i == parts.len() - 1 {
        assert(joined(parts, sep) =~= (joined(parts.drop_last(), sep) + sep) + parts[i] + none);
    } else {
        lemma_joined_mentions(parts.drop_last(), sep, i);
        let (a, b) = choose|a: Seq<char>, b: Seq<char>|
            joined(parts.drop_last(), sep) == a + parts[i] + b;
        assert(joined(parts, sep) =~= a + parts[i] + (b + sep + parts.last()));
    }
}

/// Each entry can stand on a line of its own: it is not empty and holds no line feed, and a
/// carriage return does not stand at its end where a line feed will follow.
pub open spec fn fits_on_lines(macs: Seq<Seq<char>>) -> bool {
    &&& forall|i: int| 0 <= i < macs.len() ==> (#[trigger] macs[i]).len() > 0
    &&& forall|i: int| 0 <= i < macs.len() ==> !(#[trigger] macs[i]).contains('\n')
    &&& forall|i: int| 0 <= i < macs.len() - 1 ==> (#[trigger] macs[i]).last() != '\r'
}

proof fn lemma_lines_of_joined(macs: Seq<Seq<char>>)
    requires
        fits_on_lines(macs),
    ensures
        lines(joined(macs, "\n"@)) == macs,
    decreases macs.len(),
{
    reveal_strlit("\n");
    assert("\n"@ =~= seq!['\n']);
    let text = joined(macs, "\n"@);
    if macs.len() == 0 {
        assert(lines(text) =~= macs);
    } else if macs.len() == 1 {
        assert(text == macs[0]);
        assert forall|i: int| 0 <= i < text.len() implies text[i] != '\n' by {
            assert(macs[0].contains(text[i]));
        }
        lemma_before_first_at(text, '\n', text.len() as int);
        assert(lines(text) =~= macs);
    } else {
        let rest = macs.drop_first();
        let k = macs[0].len() as int;
        lemma_joined_front(macs, "\n"@);
        assert forall|i: int| 0 <= i < k implies text[i] != '\n' by {
            assert(text[i] == macs[0][i]);
            assert(macs[0].contains(text[i]));
        }
        assert(text[k] == '\n');
        lemma_before_first_at(text, '\n', k);
        assert(text.take(k) =~= macs[0]);
        assert(text.skip(k + 1) =~= joined(rest, "\n"@));
        assert(fits_on_lines(rest)) by {
            assert forall|i: int| 0 <= i < rest.len() implies (#[trigger] rest[i]).len() > 0
                && !rest[i].contains('\n') && (i < rest.len() - 1 ==> rest[i].last() != '\r') by {
                assert(rest[i] == macs[i + 1]);
            }
        }
        lemma_lines_of_joined(rest);
        assert(seq![macs[0]] + rest =~= macs);
    }
}

proof fn lemma_filter_keeps_all(q: Seq<Seq<char>>, pred: spec_fn(Seq<char>) -> bool)
    requires
        forall|i: int| 0 <= i < q.len() ==> pred(#[trigger] q[i]),
    ensures
        q.filter(pred) == q,
    decreases q.len(),
{
    reveal(Seq::filter);
    if q.len() > 0 {
        let rest = q.drop_last();
        assert forall|i: int| 0 <= i < rest.len() implies pred(#[trigger] rest[i]) by {
            assert(rest[i] == q[i]);
        }
        lemma_filter_keeps_all(rest, pred);
        assert(pred(q[q.len() - 1]));
        assert(q =~= rest.push(q.last()));
    } else {
        assert(q.filter(pred) =~= q);
    }
}

/// A saved list reads back as it was written.
pub proof fn a_saved_list_reads_back(macs: Seq<Seq<char>>)
    requires
        fits_on_lines(macs),
    ensures
        saved_list(joined(macs, "\n"@)) == macs,
{
    lemma_lines_of_joined(macs);
    lemma_filter_keeps_all(macs, |l: Seq<char>| l.len() > 0);
}

/// The list that one engine saves arms the same devices in the next one.
pub proof fn arming_survives_a_restart(state: State, now: u64)
    requires
        state.valid(),
        fits_on_lines(ascending(state.armed)),
    ensures
        State::initial().after_restore_saved(joined(ascending(state.armed), "\n"@), now).armed
            == state.armed,
{
    lemma_ascending_finite(state.armed);
    a_saved_list_reads_back(ascending(state.armed));
    if ascending(state.armed).len() == 0 {
        assert(ascending(state.armed).to_set() =~= Set::empty());
    }
    assert(Set::<Seq<char>>::empty().union(state.armed) =~= state.armed);
}

// ---- what a person is told ----
/// `part` stands somewhere in `text`.
pub open spec fn mentions(text: Seq<char>, part: Seq<char>) -> bool {
    exists|a: Seq<char>, b: Seq<char>| text == a + part + b
}

/// Nobody is called while every armed device is paired and either connected or not yet waited for
/// too long; in particular where nothing is armed.
pub proof fn nobody_is_called_without_need(
    state: State,
    bt_on: bool,
    privileged_ready: bool,
    now: u64,
)
    requires
        forall|m: Seq<char>| #[trigger]
            state.armed.contains(m) ==> !state.unpaired.contains(m) && (state.connected.contains(m)
                || !state.waiting_since.contains_key(m) || now - state.waiting_since[m]
                < ATTENTION_MS),
    ensures
        state.attention(bt_on, privileged_ready, now) is None,
{
    assert(state.lost() =~= Set::empty());
    assert(state.stale(now) =~= Set::empty());
}

/// A lost pairing record is told at once, with the device, whatever else is the case.
pub proof fn a_lost_pairing_is_told_at_once(
    state: State,
    mac: Seq<char>,
    bt_on: bool,
    privileged_ready: bool,
    now: u64,
)
    requires
        state.valid(),
        state.armed.contains(mac),
        state.unpaired.contains(mac),
    ensures
        state.attention(bt_on, privileged_ready, now) matches Some(text) && mentions(text, mac)
            && mentions(text, " 的配对记录不在了,要到系统设置里重新配对"@),
{
    let tail = " 的配对记录不在了,要到系统设置里重新配对"@;
    assert(state.lost().contains(mac));
    lemma_names_mentioned(state.armed, state.lost(), mac, tail);
}

proof fn lemma_names_mentioned(
    armed: Set<Seq<char>>,
    named: Set<Seq<char>>,
    mac: Seq<char>,
    tail: Seq<char>,
)
    requires
        armed.finite(),
        named.subset_of(armed),
        named.contains(mac),
    ensures
        mentions(joined(ascending(named), "、"@) + tail, mac),
        mentions(joined(ascending(named), "、"@) + tail, tail),
{
    vstd::set_lib::lemma_set_subset_finite(armed, named);
    lemma_ascending_finite(named);
    let q = ascending(named);
    assert(q.to_set().contains(mac));
    let i = q.index_of(mac);
    let names = joined(q, "、"@);
    lemma_joined_mentions(q, "、"@, i);
    let (a, b) = choose|a: Seq<char>, b: Seq<char>| names == a + q[i] + b;
    assert(names + tail =~= a + mac + (b + tail));
    assert(names + tail =~= names + tail + Seq::<char>::empty());
}

/// When a device has been waited for too long, the first thing in the way is told: Bluetooth that
/// is off, then a privileged service that is not ready, then the device itself by name.
pub proof fn an_overdue_device_calls_for_a_person(
    state: State,
    mac: Seq<char>,
    bt_on: bool,
    privileged_ready: bool,
    now: u64,
)
    requires
        state.valid(),
        state.lost().is_empty(),
        state.overdue(mac, now),
    ensures
        !bt_on ==> state.attention(bt_on, privileged_ready, now) == Some(
            "蓝牙已关闭,布防中的设备无法回连"@,
        ),
        bt_on && !privileged_ready ==> state.attention(bt_on, privileged_ready, now) == Some(
            "Shizuku 未就绪,回连会退回到成功率很低的普通方式"@,
        ),
        bt_on && privileged_ready ==> (state.attention(bt_on, privileged_ready, now) matches Some(
            text,
        ) && mentions(text, mac) && mentions(
            text,
            " 已断开较久,自动重连没能接回,可能需要开机"@,
        )),
{
    assert(state.stale(now).contains(mac));
    lemma_names_mentioned(
        state.armed,
        state.stale(now),
        mac,
        " 已断开较久,自动重连没能接回,可能需要开机"@,
    );
}

/// An armed device whose link drops becomes overdue exactly `ATTENTION_MS` later, and is no longer
/// so once it is connected again.
pub proof fn a_device_becomes_overdue_in_time(
    state: State,
    mac: Seq<char>,
    dropped: u64,
    now: u64,
    linked: u64,
)
    requires
        state.armed.contains(mac),
        state.connected.contains(mac),
    ensures
        state.after_connection_change(mac, false, dropped).overdue(mac, now) == (now - dropped
            >= ATTENTION_MS),
        !state.after_connection_change(mac, false, dropped).after_connection_change(
            mac,
            true,
            linked,
        ).overdue(mac, now),
{
}

/// A device without a pairing record is not scanned for. Pairing it again puts it back to work,
/// and it is waited for from then on.
pub proof fn pairing_again_puts_a_device_back_to_work(
    state: State,
    mac: Seq<char>,
    gone: u64,
    back: u64,
    now: u64,
)
    requires
        state.armed.contains(mac),
        !state.connected.contains(mac),
        !state.in_flight(mac, now),
    ensures
        !state.after_unpaired(mac, gone).awaited(mac, now),
        ({
            let again = state.after_unpaired(mac, gone).after_paired(mac, back);
            &&& again.awaited(mac, now)
            &&& !again.lost().contains(mac)
            &&& again.overdue(mac, now) == (now - back >= ATTENTION_MS)
        }),
{
}

// ---- the log ----
/// A line is shown with the age of its latest occurrence, and with a count where it occurred more
/// than once in a row.
pub proof fn repeated_lines_are_counted(state: State, line: Seq<char>, first: u64, second: u64)
    requires
        state.valid(),
        state.log.len() == 0 || state.log.last().line != line,
    ensures
        state.note(first, line).log.last() == (LogLine { at: first, line, repeat: 1 }),
        state.note(first, line).note(second, line).log.last() == (LogLine {
            at: second,
            line,
            repeat: 2,
        }),
        state.note(first, line).note(second, line).log.len() == state.note(first, line).log.len(),
{
}

/// A line that differs from the last one is a new event, even where it occurred before.
pub proof fn a_different_line_is_a_new_event(
    state: State,
    line: Seq<char>,
    other: Seq<char>,
    now: u64,
)
    requires
        state.valid(),
        line != other,
    ensures
        state.note(now, line).note(now, other).note(now, line).log.last() == (LogLine {
            at: now,
            line,
            repeat: 1,
        }),
{
}

} // verus!
