//! What each call of the engine does, told by the records before and after it and by its answer.
//!
//! Each law speaks of one call: `old(e)` is the engine before it, `final(e)` the engine after it.

use vstd::prelude::*;

use crate::bridge::Orders;
use crate::engine::{
    Action, Engine, Row, Scan, ATTENTION_MS, BLIND_GAP_MAX_MS, BLIND_GAP_MS, FAST_SCAN_MS,
    KEEPALIVE_ENABLED, KEEPALIVE_GAP_MS, LOG_CAP, LOW_LATENCY_REFRESH_MS, RETRY_GAP_MS, SETTLE_MS,
};
use crate::laws::a_scan_lists_what_is_awaited;
use crate::model::{noted, LogLine, ScanView, State};
use crate::roster::{ascending, lemma_ascending_finite, strictly_ascending};
use crate::text::{decimal, joined, texts};

verus! {

// ---- spans ----
/// The spans that the engine keeps, and how they lie to each other: a connection has time to be
/// set up before the timer may disturb it, a fresh link is believed for less than the longest
/// backoff, and a person is called only when the longest backoff is over.
pub proof fn the_spans_fit_together()
    ensures
        RETRY_GAP_MS == 8_000,
        BLIND_GAP_MS == 10_000,
        LOW_LATENCY_REFRESH_MS == 15_000,
        SETTLE_MS == 30_000,
        KEEPALIVE_GAP_MS == 60_000,
        FAST_SCAN_MS == 120_000,
        BLIND_GAP_MAX_MS == 300_000,
        ATTENTION_MS == 360_000,
        LOG_CAP == 60,
        KEEPALIVE_ENABLED,
        RETRY_GAP_MS < BLIND_GAP_MS < SETTLE_MS < FAST_SCAN_MS < BLIND_GAP_MAX_MS < ATTENTION_MS,
{
}

// ---- the beginning ----
/// A new engine knows of no device and has nothing to tell.
pub proof fn a_new_engine_knows_nothing(e: Engine, m: Seq<char>)
    requires
        call_ensures(Engine::new, (), e) || call_ensures(Engine::default, (), e),
    ensures
        !e@.armed.contains(m),
        !e@.connected.contains(m),
        !e@.unpaired.contains(m),
        !e@.low_latency_taken.contains(m),
        !e@.last_try.contains_key(m),
        !e@.blind_gap.contains_key(m),
        !e@.acl_since.contains_key(m),
        !e@.waiting_since.contains_key(m),
        !e@.last_keepalive.contains_key(m),
        !e@.last_low_latency.contains_key(m),
        e@.last_scan is None,
        e@.log.len() == 0,
        e.wf(),
{
}

// ---- attempts ----
/// An advertisement of an armed device that is not connected is answered with an attempt exactly
/// if none went out within the last `RETRY_GAP_MS`. How long the timer is backing off, and what
/// brought the last attempt about, does not matter.
pub proof fn hearing_a_device_decides(e: &mut Engine, mac: &str, up: bool, now: u64, r: Action)
    requires
        call_ensures(Engine::on_advertisement, (e, mac, up, now), r),
    ensures
        ({
            let a = old(e)@;
            let m = mac@;
            let linked = up || (a.connected.contains(m) && a.acl_since.contains_key(m) && now
                - a.acl_since[m] < SETTLE_MS);
            let trying = a.last_try.contains_key(m) && now - a.last_try[m] < RETRY_GAP_MS;
            &&& r == Action::Connect <==> a.armed.contains(m) && !linked && !trying
            &&& !a.armed.contains(m) ==> (r matches Action::Skip(why) && why@ == "未布防"@)
            &&& a.armed.contains(m) && linked ==> (r matches Action::Skip(why) && why@
                == "系统已连接"@)
            &&& a.armed.contains(m) && !linked && trying ==> (r matches Action::Skip(why) && why@
                == "连接中"@)
        }),
{
}

/// What an advertisement leaves behind. Of an unarmed device nothing. The record of an armed one
/// is corrected by the platform, its backoff ends, and an attempt is dated; the rest stays.
pub proof fn hearing_a_device_is_recorded(e: &mut Engine, mac: &str, up: bool, now: u64, r: Action)
    requires
        call_ensures(Engine::on_advertisement, (e, mac, up, now), r),
    ensures
        ({
            let a = old(e)@;
            let z = final(e)@;
            let m = mac@;
            let fresh = a.acl_since.contains_key(m) && now - a.acl_since[m] < SETTLE_MS;
            let linked = up || (a.connected.contains(m) && fresh);
            &&& !a.armed.contains(m) ==> z == a
            &&& a.armed.contains(m) ==> {
                &&& z.connected.contains(m) == linked
                &&& !z.blind_gap.contains_key(m)
                &&& z.last_try.get(m) == (if r == Action::Connect {
                    Some(now)
                } else {
                    a.last_try.get(m)
                })
                &&& z.waiting_since.get(m) == (if a.connected.contains(m) && !linked {
                    Some(now)
                } else {
                    a.waiting_since.get(m)
                })
                &&& z.low_latency_taken.contains(m) == (a.low_latency_taken.contains(m) && (up
                    || fresh))
                &&& z.last_low_latency.get(m) == (if up || fresh {
                    a.last_low_latency.get(m)
                } else {
                    None
                })
                &&& z.log == (if linked {
                    noted(a.log, now, m + " 系统已连接,让路"@)
                } else if r == Action::Connect {
                    noted(a.log, now, m + " 发起连接"@)
                } else {
                    a.log
                })
            }
            &&& only_link_records_change(a, z, m)
        }),
{
}

/// The timer is answered with an attempt exactly if the armed device is not connected and the gap
/// has passed since the last attempt, whatever brought that about. The gap is `BLIND_GAP_MS`
/// unless blind attempts have lengthened it.
pub proof fn the_timer_decides(e: &mut Engine, mac: &str, up: bool, now: u64, r: Action)
    requires
        call_ensures(Engine::on_tick, (e, mac, up, now), r),
    ensures
        ({
            let a = old(e)@;
            let m = mac@;
            let linked = up || (a.connected.contains(m) && a.acl_since.contains_key(m) && now
                - a.acl_since[m] < SETTLE_MS);
            let gap = if a.blind_gap.contains_key(m) {
                a.blind_gap[m]
            } else {
                BLIND_GAP_MS
            };
            let early = a.last_try.contains_key(m) && now - a.last_try[m] < gap;
            &&& r == Action::Connect <==> a.armed.contains(m) && !linked && !early
            &&& !a.armed.contains(m) ==> (r matches Action::Skip(why) && why@ == "未布防"@)
            &&& a.armed.contains(m) && linked ==> (r matches Action::Skip(why) && why@
                == "系统已连接"@)
            &&& a.armed.contains(m) && !linked && early ==> (r matches Action::Skip(why) && why@
                == "退避中"@)
        }),
{
}

/// What the timer leaves behind. Of an unarmed device nothing. The record of an armed one is
/// corrected by the platform; a connection ends the backoff, an attempt is dated and doubles the
/// gap up to `BLIND_GAP_MAX_MS`; the rest stays.
pub proof fn the_timer_is_recorded(e: &mut Engine, mac: &str, up: bool, now: u64, r: Action)
    requires
        call_ensures(Engine::on_tick, (e, mac, up, now), r),
        old(e).wf(),
    ensures
        ({
            let a = old(e)@;
            let z = final(e)@;
            let m = mac@;
            let fresh = a.acl_since.contains_key(m) && now - a.acl_since[m] < SETTLE_MS;
            let linked = up || (a.connected.contains(m) && fresh);
            let gap: int = if a.blind_gap.contains_key(m) {
                a.blind_gap[m] as int
            } else {
                BLIND_GAP_MS as int
            };
            &&& !a.armed.contains(m) ==> z == a
            &&& a.armed.contains(m) ==> {
                &&& z.connected.contains(m) == linked
                &&& linked ==> !z.blind_gap.contains_key(m)
                &&& !linked && r != Action::Connect ==> z.blind_gap.get(m) == a.blind_gap.get(m)
                &&& r == Action::Connect ==> z.blind_gap.contains_key(m) && z.blind_gap[m]
                    == vstd::math::min(2 * gap, BLIND_GAP_MAX_MS as int)
                &&& z.last_try.get(m) == (if r == Action::Connect {
                    Some(now)
                } else {
                    a.last_try.get(m)
                })
                &&& z.waiting_since.get(m) == (if a.connected.contains(m) && !linked {
                    Some(now)
                } else {
                    a.waiting_since.get(m)
                })
                &&& z.low_latency_taken.contains(m) == (a.low_latency_taken.contains(m) && (up
                    || fresh))
                &&& z.last_low_latency.get(m) == (if up || fresh {
                    a.last_low_latency.get(m)
                } else {
                    None
                })
                &&& z.log == (if linked {
                    noted(a.log, now, m + " 系统已连接,让路"@)
                } else if r == Action::Connect {
                    noted(a.log, now, m + " 盲试连接"@)
                } else {
                    a.log
                })
            }
            &&& only_link_records_change(a, z, m)
        }),
{
    old(e).lemma_valid();
}

/// From `a` to `z` nothing has changed but the log and what is recorded of the link of `m`: its
/// connection, attempts, backoff, wait and low-latency claims.
pub open spec fn only_link_records_change(a: State, z: State, m: Seq<char>) -> bool {
    &&& z.armed == a.armed
    &&& z.unpaired == a.unpaired
    &&& z.acl_since == a.acl_since
    &&& z.last_keepalive == a.last_keepalive
    &&& z.last_scan == a.last_scan
    &&& z.connected.remove(m) =~= a.connected.remove(m)
    &&& z.last_try.remove(m) =~= a.last_try.remove(m)
    &&& z.blind_gap.remove(m) =~= a.blind_gap.remove(m)
    &&& z.waiting_since.remove(m) =~= a.waiting_since.remove(m)
    &&& z.low_latency_taken.remove(m) =~= a.low_latency_taken.remove(m)
    &&& z.last_low_latency.remove(m) =~= a.last_low_latency.remove(m)
}

/// After an attempt that an advertisement brought about, the timer is answered with an attempt
/// exactly if `BLIND_GAP_MS` have passed, and a second advertisement exactly if `RETRY_GAP_MS`
/// have passed. What came before does not matter.
pub proof fn an_attempt_delays_the_next(
    e: &mut Engine,
    timed: &mut Engine,
    heard: &mut Engine,
    mac: &str,
    first: u64,
    second: u64,
    r: Action,
    on_timer: Action,
    on_hearing: Action,
)
    requires
        call_ensures(Engine::on_advertisement, (e, mac, false, first), r),
        r == Action::Connect,
        *old(timed) == *final(e),
        call_ensures(Engine::on_tick, (timed, mac, false, second), on_timer),
        *old(heard) == *final(e),
        call_ensures(Engine::on_advertisement, (heard, mac, false, second), on_hearing),
    ensures
        on_timer == Action::Connect <==> second - first >= BLIND_GAP_MS,
        on_hearing == Action::Connect <==> second - first >= RETRY_GAP_MS,
{
}

/// After a blind attempt, an advertisement is answered with an attempt exactly if `RETRY_GAP_MS`
/// have passed, however many blind attempts came before: backing off never delays the answer to a
/// device that is there.
pub proof fn backing_off_never_delays_hearing(
    e: &mut Engine,
    heard: &mut Engine,
    mac: &str,
    first: u64,
    second: u64,
    r: Action,
    on_hearing: Action,
)
    requires
        call_ensures(Engine::on_tick, (e, mac, false, first), r),
        r == Action::Connect,
        *old(heard) == *final(e),
        call_ensures(Engine::on_advertisement, (heard, mac, false, second), on_hearing),
    ensures
        on_hearing == Action::Connect <==> second - first >= RETRY_GAP_MS,
{
}

// ---- links ----
/// A report that a link is up is believed, armed or not: the device is connected, the moment of the
/// link is recorded, and its backoff ends. The rest stays.
pub proof fn a_link_that_is_up_is_recorded(e: &mut Engine, mac: &str, now: u64)
    requires
        call_ensures(Engine::on_connection_change, (e, mac, true, now), ()),
    ensures
        ({
            let a = old(e)@;
            let z = final(e)@;
            let m = mac@;
            &&& z.connected.contains(m)
            &&& z.connected.remove(m) =~= a.connected.remove(m)
            &&& z.acl_since.get(m) == Some(now)
            &&& z.acl_since.remove(m) =~= a.acl_since.remove(m)
            &&& !z.blind_gap.contains_key(m)
            &&& z.blind_gap.remove(m) =~= a.blind_gap.remove(m)
            &&& z.log == noted(a.log, now, m + " 已连接"@)
            &&& z.armed == a.armed && z.unpaired == a.unpaired && z.last_scan == a.last_scan
            &&& z.last_try == a.last_try && z.waiting_since == a.waiting_since
            &&& z.last_keepalive == a.last_keepalive
            &&& z.low_latency_taken == a.low_latency_taken
            &&& z.last_low_latency == a.last_low_latency
        }),
{
}

/// A report that a link is down is believed, armed or not, fresh or not: the device is not
/// connected, and nothing that was asked of the link is remembered. If the device was connected, it
/// is waited for from now on, without throttle or backoff; if not, an attempt has failed, and
/// throttle, backoff and wait go on. The rest stays.
pub proof fn a_link_that_is_down_is_recorded(e: &mut Engine, mac: &str, now: u64)
    requires
        call_ensures(Engine::on_connection_change, (e, mac, false, now), ()),
    ensures
        ({
            let a = old(e)@;
            let z = final(e)@;
            let m = mac@;
            &&& !z.connected.contains(m)
            &&& z.connected.remove(m) =~= a.connected.remove(m)
            &&& !z.acl_since.contains_key(m)
            &&& z.acl_since.remove(m) =~= a.acl_since.remove(m)
            &&& !z.low_latency_taken.contains(m)
            &&& z.low_latency_taken.remove(m) =~= a.low_latency_taken.remove(m)
            &&& !z.last_low_latency.contains_key(m)
            &&& z.last_low_latency.remove(m) =~= a.last_low_latency.remove(m)
            &&& a.connected.contains(m) ==> {
                &&& !z.last_try.contains_key(m)
                &&& !z.blind_gap.contains_key(m)
                &&& z.waiting_since.get(m) == Some(now)
                &&& z.log == noted(a.log, now, m + " 断开,等待广播"@)
            }
            &&& !a.connected.contains(m) ==> {
                &&& z.last_try == a.last_try
                &&& z.blind_gap == a.blind_gap
                &&& z.waiting_since == a.waiting_since
                &&& z.log == noted(a.log, now, m + " 连接未成功,继续退避"@)
            }
            &&& z.last_try.remove(m) =~= a.last_try.remove(m)
            &&& z.blind_gap.remove(m) =~= a.blind_gap.remove(m)
            &&& z.waiting_since.remove(m) =~= a.waiting_since.remove(m)
            &&& z.armed == a.armed && z.unpaired == a.unpaired && z.last_scan == a.last_scan
            &&& z.last_keepalive == a.last_keepalive
        }),
{
}

// ---- what is asked of a link ----
/// The untimed low-latency request can be claimed exactly for an armed and connected device whose
/// link has had no claim. A claim is recorded, nothing else changes.
pub proof fn the_untimed_request_is_claimed_once(e: &mut Engine, mac: &str, r: bool)
    requires
        call_ensures(Engine::take_low_latency_request, (e, mac), r),
    ensures
        ({
            let a = old(e)@;
            let z = final(e)@;
            let m = mac@;
            &&& r <==> a.armed.contains(m) && a.connected.contains(m)
                && !a.low_latency_taken.contains(m)
            &&& z.low_latency_taken.contains(m) <==> a.low_latency_taken.contains(m) || r
            &&& z.low_latency_taken.remove(m) =~= a.low_latency_taken.remove(m)
            &&& z == (State { low_latency_taken: z.low_latency_taken, ..a })
        }),
{
}

/// The low-latency parameters are asserted exactly for an armed and connected device whose last
/// assertion, if any, is at least `LOW_LATENCY_REFRESH_MS` ago. A claim is dated and uses up the
/// untimed request; a refusal changes nothing.
pub proof fn low_latency_is_refreshed_in_time(e: &mut Engine, mac: &str, now: u64, r: bool)
    requires
        call_ensures(Engine::refresh_low_latency_request, (e, mac, now), r),
    ensures
        ({
            let a = old(e)@;
            let z = final(e)@;
            let m = mac@;
            &&& r <==> a.armed.contains(m) && a.connected.contains(m) && (
            a.last_low_latency.contains_key(m) ==> now - a.last_low_latency[m]
                >= LOW_LATENCY_REFRESH_MS)
            &&& !r ==> z == a
            &&& r ==> z.low_latency_taken.contains(m) && z.last_low_latency.get(m) == Some(now)
            &&& z.low_latency_taken.remove(m) =~= a.low_latency_taken.remove(m)
            &&& z.last_low_latency.remove(m) =~= a.last_low_latency.remove(m)
            &&& z == (State {
                low_latency_taken: z.low_latency_taken,
                last_low_latency: z.last_low_latency,
                ..a
            })
        }),
{
}

/// A permit that comes back leaves no trace of a claim, and changes nothing else.
pub proof fn a_returned_permit_leaves_no_trace(e: &mut Engine, mac: &str)
    requires
        call_ensures(Engine::return_low_latency_permit, (e, mac), ()),
    ensures
        ({
            let a = old(e)@;
            let z = final(e)@;
            let m = mac@;
            &&& !z.low_latency_taken.contains(m) && !z.last_low_latency.contains_key(m)
            &&& z.low_latency_taken.remove(m) =~= a.low_latency_taken.remove(m)
            &&& z.last_low_latency.remove(m) =~= a.last_low_latency.remove(m)
            &&& z == (State {
                low_latency_taken: z.low_latency_taken,
                last_low_latency: z.last_low_latency,
                ..a
            })
        }),
{
}

/// From `a` to `z` a keepalive to `m` was claimed at `now` with the answer `r`: it is granted
/// exactly for an armed and connected device whose last keepalive, if any, is at least
/// `KEEPALIVE_GAP_MS` ago; then it is dated, else nothing changes.
pub open spec fn keepalive_claimed(a: State, z: State, m: Seq<char>, now: u64, r: bool) -> bool {
    &&& r <==> a.armed.contains(m) && a.connected.contains(m) && (a.last_keepalive.contains_key(m)
        ==> now - a.last_keepalive[m] >= KEEPALIVE_GAP_MS)
    &&& z.last_keepalive.get(m) == (if r {
        Some(now)
    } else {
        a.last_keepalive.get(m)
    })
    &&& z.last_keepalive.remove(m) =~= a.last_keepalive.remove(m)
    &&& z == (State { last_keepalive: z.last_keepalive, ..a })
}

/// Keepalives are granted to armed and connected devices, one per `KEEPALIVE_GAP_MS`.
pub proof fn keepalives_are_granted_in_time(e: &mut Engine, mac: &str, now: u64, r: bool)
    ensures
        call_ensures(Engine::take_keepalive, (e, mac, now), r) ==> keepalive_claimed(
            old(e)@,
            final(e)@,
            mac@,
            now,
            r,
        ),
        call_ensures(Engine::keepalive_due, (e, mac, now), r) ==> keepalive_claimed(
            old(e)@,
            final(e)@,
            mac@,
            now,
            r,
        ),
{
}

// ---- scanning ----
/// `scan` is what the records of `s` call for at `now`. It lists, in ascending order, the armed and
/// paired devices that are not connected and on which no attempt went out within the last
/// `RETRY_GAP_MS`; it runs at full duty if one of them is waited for since less than
/// `FAST_SCAN_MS`; and it is no scan at all if there is none.
pub open spec fn scan_called_for(s: State, now: u64, scan: ScanView) -> bool {
    let wanted = |m: Seq<char>|
        {
            &&& s.armed.contains(m) && !s.connected.contains(m) && !s.unpaired.contains(m)
            &&& s.last_try.contains_key(m) ==> now - s.last_try[m] >= RETRY_GAP_MS
        };
    match scan {
        ScanView::Start { macs, fast } => {
            &&& macs.len() > 0
            &&& strictly_ascending(macs)
            &&& forall|m: Seq<char>| #[trigger] macs.contains(m) <==> wanted(m)
            &&& fast <==> exists|m: Seq<char>| #[trigger]
                macs.contains(m) && s.waiting_since.contains_key(m) && now - s.waiting_since[m]
                    < FAST_SCAN_MS
        },
        ScanView::Stop => forall|m: Seq<char>| !(#[trigger] wanted(m)),
    }
}

pub(crate) proof fn lemma_scan_called_for(s: State, now: u64)
    requires
        s.armed.finite(),
    ensures
        scan_called_for(s, now, s.desired_scan(now)),
{
    a_scan_lists_what_is_awaited(s, now);
    match s.desired_scan(now) {
        ScanView::Start { macs, fast } => {
            assert forall|m: Seq<char>| #[trigger] macs.contains(m) implies s.awaited(m, now) by {}
        },
        ScanView::Stop => {
            assert forall|m: Seq<char>|
                !(s.armed.contains(m) && !s.connected.contains(m) && !s.unpaired.contains(m) && (
                s.last_try.contains_key(m) ==> now - s.last_try[m] >= RETRY_GAP_MS)) by {
                assert(!s.awaited(m, now));
            }
        },
    }
}

/// Two scan instructions say the same exactly if both say to stop, or both to scan for the same
/// addresses in the same order and at the same duty.
pub proof fn scans_are_the_same_in_every_part(x: &Scan, y: &Scan, r: bool)
    requires
        call_ensures(Scan::same, (x, y), r),
    ensures
        r <==> match (*x, *y) {
            (Scan::Stop, Scan::Stop) => true,
            (Scan::Start { macs: a, fast: f }, Scan::Start { macs: b, fast: g }) => {
                &&& f == g
                &&& a.len() == b.len()
                &&& forall|i: int| 0 <= i < a.len() ==> (#[trigger] a@[i])@ == b@[i]@
            },
            _ => false,
        },
{
    match (*x, *y) {
        (Scan::Start { macs: a, fast: f }, Scan::Start { macs: b, fast: g }) => {
            if r {
                assert(texts(a@).len() == texts(b@).len());
                assert forall|i: int| 0 <= i < a.len() implies (#[trigger] a@[i])@ == b@[i]@ by {
                    assert(texts(a@)[i] == texts(b@)[i]);
                }
            } else if f == g && a.len() == b.len() && forall|i: int|
                0 <= i < a.len() ==> (#[trigger] a@[i])@ == b@[i]@ {
                assert(texts(a@) =~= texts(b@));
            }
        },
        _ => {},
    }
}

/// A scan that is asked for is the one that the records call for. It is remembered, and nothing
/// else changes.
pub proof fn a_scan_command_gives_what_is_called_for(e: &mut Engine, now: u64, r: Scan)
    requires
        old(e).wf(),
        call_ensures(Engine::scan_command, (e, now), r),
    ensures
        scan_called_for(old(e)@, now, r@),
        final(e)@.last_scan == Some(r@),
        final(e)@ == (State { last_scan: final(e)@.last_scan, ..old(e)@ }),
{
    old(e).lemma_valid();
    lemma_scan_called_for(old(e)@, now);
}

/// A change of scan is ordered exactly if the scan ordered last is not the one that the records call
/// for; afterwards it is. Nothing else changes.
pub proof fn a_scan_is_ordered_when_it_changes(e: &mut Engine, now: u64, r: Option<Scan>)
    requires
        old(e).wf(),
        call_ensures(Engine::scan_if_changed, (e, now), r),
    ensures
        final(e)@.last_scan matches Some(scan) && scan_called_for(old(e)@, now, scan),
        r matches Some(scan) ==> final(e)@.last_scan == Some(scan@) && old(e)@.last_scan != Some(
            scan@,
        ),
        r is None ==> final(e)@.last_scan == old(e)@.last_scan,
        final(e)@ == (State { last_scan: final(e)@.last_scan, ..old(e)@ }),
{
    old(e).lemma_valid();
    lemma_scan_called_for(old(e)@, now);
}

/// A scan that failed is forgotten, so that it is ordered again, and noted.
pub proof fn a_failed_scan_is_forgotten(e: &mut Engine, now: u64)
    requires
        call_ensures(Engine::on_scan_failed, (e, now), ()),
    ensures
        final(e)@.last_scan is None,
        final(e)@.log == noted(old(e)@.log, now, "扫描没能开起来,下一轮重试"@),
        final(e)@ == (State { last_scan: None, log: final(e)@.log, ..old(e)@ }),
{
}

// ---- calls that belong together ----
/// The patrol does for a device what the timer, the low-latency claim and the keepalive claim do one
/// after another, and orders what they answer; it orders no scan.
pub proof fn the_patrol_takes_three_steps(
    e: &mut Engine,
    one: &mut Engine,
    two: &mut Engine,
    three: &mut Engine,
    mac: &str,
    up: bool,
    now: u64,
    r: Orders,
    action: Action,
    low_latency: bool,
    keepalive: bool,
)
    requires
        call_ensures(Engine::patrol, (e, mac, up, now), r),
        *old(one) == *old(e),
        call_ensures(Engine::on_tick, (one, mac, up, now), action),
        *old(two) == *final(one),
        call_ensures(Engine::refresh_low_latency_request, (two, mac, now), low_latency),
        *old(three) == *final(two),
        call_ensures(Engine::take_keepalive, (three, mac, now), keepalive),
    ensures
        final(e)@ == final(three)@,
        r.connect <==> action == Action::Connect,
        r.low_latency == low_latency,
        r.keepalive == keepalive,
        r.scan is None,
{
}

/// What the patrol orders, told by the records alone: an attempt where the gap is over, and for a
/// connected device the low-latency parameters and a keepalive where their time has come. An
/// unarmed device gets nothing.
pub proof fn the_patrol_orders_what_is_due(e: &mut Engine, mac: &str, up: bool, now: u64, r: Orders)
    requires
        call_ensures(Engine::patrol, (e, mac, up, now), r),
    ensures
        ({
            let a = old(e)@;
            let z = final(e)@;
            let m = mac@;
            let linked = up || (a.connected.contains(m) && a.acl_since.contains_key(m) && now
                - a.acl_since[m] < SETTLE_MS);
            let gap = if a.blind_gap.contains_key(m) {
                a.blind_gap[m]
            } else {
                BLIND_GAP_MS
            };
            &&& r.connect <==> a.armed.contains(m) && !linked && (a.last_try.contains_key(m) ==> now
                - a.last_try[m] >= gap)
            &&& r.low_latency <==> a.armed.contains(m) && linked && (
            a.last_low_latency.contains_key(m) ==> now - a.last_low_latency[m]
                >= LOW_LATENCY_REFRESH_MS)
            &&& r.keepalive <==> a.armed.contains(m) && linked && (a.last_keepalive.contains_key(m)
                ==> now - a.last_keepalive[m] >= KEEPALIVE_GAP_MS)
            &&& r.connect ==> z.last_try.get(m) == Some(now)
            &&& r.low_latency ==> z.last_low_latency.get(m) == Some(now)
            &&& r.keepalive ==> z.last_keepalive.get(m) == Some(now)
            &&& !a.armed.contains(m) ==> z == a
        }),
{
}

/// An advertisement is taken in, the scan is changed where it has to be, and the low-latency
/// parameters are claimed, one after another; the answers are the orders. No keepalive is sent.
pub proof fn hearing_takes_three_steps(
    e: &mut Engine,
    one: &mut Engine,
    two: &mut Engine,
    three: &mut Engine,
    mac: &str,
    up: bool,
    now: u64,
    r: Orders,
    action: Action,
    scan: Option<Scan>,
    low_latency: bool,
)
    requires
        call_ensures(Engine::heard, (e, mac, up, now), r),
        *old(one) == *old(e),
        call_ensures(Engine::on_advertisement, (one, mac, up, now), action),
        *old(two) == *final(one),
        call_ensures(Engine::scan_if_changed, (two, now), scan),
        *old(three) == *final(two),
        call_ensures(Engine::refresh_low_latency_request, (three, mac, now), low_latency),
    ensures
        final(e)@ == final(three)@,
        r.connect <==> action == Action::Connect,
        r.scan is Some <==> scan is Some,
        r.scan is Some ==> r.scan->0@ == scan->0@,
        r.low_latency == low_latency,
        !r.keepalive,
{
}

/// A report on a link is taken in, the scan is changed where it has to be, and the low-latency
/// parameters are claimed, one after another; the answers are the orders. Nothing is connected and
/// no keepalive is sent.
pub proof fn a_link_report_takes_three_steps(
    e: &mut Engine,
    one: &mut Engine,
    two: &mut Engine,
    three: &mut Engine,
    mac: &str,
    up: bool,
    now: u64,
    r: Orders,
    scan: Option<Scan>,
    low_latency: bool,
)
    requires
        call_ensures(Engine::link_changed, (e, mac, up, now), r),
        *old(one) == *old(e),
        call_ensures(Engine::on_connection_change, (one, mac, up, now), ()),
        *old(two) == *final(one),
        call_ensures(Engine::scan_if_changed, (two, now), scan),
        *old(three) == *final(two),
        call_ensures(Engine::refresh_low_latency_request, (three, mac, now), low_latency),
    ensures
        final(e)@ == final(three)@,
        r.scan is Some <==> scan is Some,
        r.scan is Some ==> r.scan->0@ == scan->0@,
        r.low_latency == low_latency,
        !r.connect,
        !r.keepalive,
{
}

// ---- arming and pairing ----
/// A tap turns the arming of one device over. Arming it starts its wait, disarming it forgets the
/// last attempt; the scan that is then called for is the answer and is remembered. The rest stays.
pub proof fn a_tap_turns_the_arming_over(e: &mut Engine, mac: &str, now: u64, r: Scan)
    requires
        old(e).wf(),
        call_ensures(Engine::toggle, (e, mac, now), r),
    ensures
        ({
            let a = old(e)@;
            let z = final(e)@;
            let m = mac@;
            &&& z.armed.contains(m) == !a.armed.contains(m)
            &&& z.armed.remove(m) =~= a.armed.remove(m)
            &&& a.armed.contains(m) ==> {
                &&& !z.last_try.contains_key(m) && z.last_try.remove(m) =~= a.last_try.remove(m)
                &&& z.waiting_since == a.waiting_since
                &&& z.log == noted(a.log, now, m + " 撤防"@)
            }
            &&& !a.armed.contains(m) ==> {
                &&& z.last_try == a.last_try
                &&& z.waiting_since.get(m) == Some(now)
                &&& z.waiting_since.remove(m) =~= a.waiting_since.remove(m)
                &&& z.log == noted(a.log, now, m + " 布防"@)
            }
            &&& scan_called_for(z, now, r@)
            &&& z.last_scan == Some(r@)
            &&& z.connected == a.connected && z.unpaired == a.unpaired
            &&& z.blind_gap == a.blind_gap && z.acl_since == a.acl_since
            &&& z.last_keepalive == a.last_keepalive
            &&& z.low_latency_taken == a.low_latency_taken
            &&& z.last_low_latency == a.last_low_latency
        }),
{
    old(e).lemma_valid();
    crate::laws::a_tap_orders_the_scan_it_calls_for(old(e)@, mac@, now);
    lemma_scan_called_for(final(e)@, now);
}

/// `m` stands in the list.
pub open spec fn listed(macs: Vec<String>, m: Seq<char>) -> bool {
    exists|i: int| 0 <= i < macs.len() && (#[trigger] macs@[i])@ == m
}

/// Restoring arms the devices of a list and starts their wait. What was armed stays armed, and how
/// many devices are armed now is noted. No scan is ordered, the rest stays.
pub proof fn restoring_arms_the_listed(e: &mut Engine, macs: Vec<String>, now: u64, m: Seq<char>)
    requires
        call_ensures(Engine::restore, (e, macs, now), ()),
    ensures
        ({
            let a = old(e)@;
            let z = final(e)@;
            &&& z.armed.contains(m) <==> a.armed.contains(m) || listed(macs, m)
            &&& z.waiting_since.get(m) == (if listed(macs, m) {
                Some(now)
            } else {
                a.waiting_since.get(m)
            })
            &&& z.log == noted(a.log, now, "恢复布防 "@ + decimal(z.armed.len()) + " 台"@)
            &&& z == (State {
                armed: z.armed,
                waiting_since: z.waiting_since,
                log: z.log,
                ..a
            })
        }),
{
    let q = texts(macs@);
    if listed(macs, m) {
        let i = choose|i: int| 0 <= i < macs.len() && (#[trigger] macs@[i])@ == m;
        assert(q[i] == m);
    }
    if q.contains(m) {
        let i = q.index_of(m);
        assert(macs@[i]@ == m);
    }
    assert(q.to_set().contains(m) <==> q.contains(m));
}

/// A pairing record that has gone is remembered, and noted the first time. The rest stays.
pub proof fn a_lost_pairing_is_recorded(e: &mut Engine, mac: &str, now: u64)
    requires
        call_ensures(Engine::on_unpaired, (e, mac, now), ()),
    ensures
        ({
            let a = old(e)@;
            let z = final(e)@;
            let m = mac@;
            &&& z.unpaired.contains(m)
            &&& z.unpaired.remove(m) =~= a.unpaired.remove(m)
            &&& z.log == (if a.unpaired.contains(m) {
                a.log
            } else {
                noted(a.log, now, m + " 配对记录不在了"@)
            })
            &&& z == (State { unpaired: z.unpaired, log: z.log, ..a })
        }),
{
}

/// A pairing record that is back is noted, and the device is waited for from now on; one that was
/// never missed changes nothing. The rest stays.
pub proof fn a_pairing_that_is_back_is_recorded(e: &mut Engine, mac: &str, now: u64)
    requires
        call_ensures(Engine::on_paired, (e, mac, now), ()),
    ensures
        ({
            let a = old(e)@;
            let z = final(e)@;
            let m = mac@;
            &&& !z.unpaired.contains(m)
            &&& z.unpaired.remove(m) =~= a.unpaired.remove(m)
            &&& !a.unpaired.contains(m) ==> z == a
            &&& a.unpaired.contains(m) ==> z.waiting_since.get(m) == Some(now) && z.log == noted(
                a.log,
                now,
                m + " 已重新配对"@,
            )
            &&& z.waiting_since.remove(m) =~= a.waiting_since.remove(m)
            &&& z == (State {
                unpaired: z.unpaired,
                waiting_since: z.waiting_since,
                log: z.log,
                ..a
            })
        }),
{
}

/// A device is known to have no pairing record from the report of its loss to the report of its
/// return, whatever was known before.
pub proof fn pairing_reports_are_answered_back(
    e: &mut Engine,
    mac: &str,
    now: u64,
    other: &str,
    before: bool,
    after: bool,
)
    requires
        call_ensures(Engine::is_unpaired, (old(e), other), before),
        call_ensures(Engine::is_unpaired, (final(e), other), after),
    ensures
        before == old(e)@.unpaired.contains(other@),
        call_ensures(Engine::on_unpaired, (e, mac, now), ()) ==> after == (before || other@ == mac@),
        call_ensures(Engine::on_paired, (e, mac, now), ()) ==> after == (before && other@ != mac@),
{
}

// ---- what the user sees ----
/// The row of a device. An armed device that is connected is shown as connected, whatever attempts
/// are recorded; one that is not, as connecting exactly if an attempt on it is remembered. One that
/// is not armed is shown as connected by the system exactly if it is connected.
pub proof fn a_row_tells_the_condition(e: &Engine, mac: &str, r: Row)
    requires
        call_ensures(Engine::row, (e, mac), r),
    ensures
        r.mac@ == mac@,
        r.armed == e@.armed.contains(mac@),
        e@.armed.contains(mac@) && e@.connected.contains(mac@) ==> r.state@ == "已连接"@,
        e@.armed.contains(mac@) && !e@.connected.contains(mac@) && e@.last_try.contains_key(mac@)
            ==> r.state@ == "正在连接"@,
        e@.armed.contains(mac@) && !e@.connected.contains(mac@) && !e@.last_try.contains_key(mac@)
            ==> r.state@ == "等待广播"@,
        !e@.armed.contains(mac@) && e@.connected.contains(mac@) ==> r.state@ == "系统已连接"@,
        !e@.armed.contains(mac@) && !e@.connected.contains(mac@) ==> r.state@ == "未布防"@,
{
}

/// After a report on its link the row of an armed device says that it is connected, or that it is
/// not, whatever has been attempted; that of any other device likewise in its own words.
pub proof fn a_row_follows_the_link(e: &mut Engine, mac: &str, up: bool, now: u64, r: Row)
    requires
        call_ensures(Engine::on_connection_change, (e, mac, up, now), ()),
        call_ensures(Engine::row, (final(e), mac), r),
    ensures
        r.armed == old(e)@.armed.contains(mac@),
        r.armed && up ==> r.state@ == "已连接"@,
        !r.armed && up ==> r.state@ == "系统已连接"@,
        r.armed && !up && old(e)@.connected.contains(mac@) ==> r.state@ == "等待广播"@,
        r.armed && !up && !old(e)@.connected.contains(mac@) ==> r.state@ == (
        if old(e)@.last_try.contains_key(mac@) {
            "正在连接"@
        } else {
            "等待广播"@
        }),
        !r.armed && !up ==> r.state@ == "未布防"@,
{
}

/// After an attempt the row says that the device is being connected.
pub proof fn a_row_follows_an_attempt(e: &mut Engine, mac: &str, up: bool, now: u64, a: Action, r: Row)
    requires
        call_ensures(Engine::on_advertisement, (e, mac, up, now), a) || call_ensures(
            Engine::on_tick,
            (e, mac, up, now),
            a,
        ),
        a == Action::Connect,
        call_ensures(Engine::row, (final(e), mac), r),
    ensures
        r.armed && r.state@ == "正在连接"@,
{
}

/// The armed devices are handed out in ascending order, each once, and no other.
pub proof fn the_armed_are_listed(e: &Engine, r: Vec<String>)
    requires
        e.wf(),
        call_ensures(Engine::armed_macs, (e,), r),
    ensures
        strictly_ascending(texts(r@)),
        forall|m: Seq<char>| #[trigger] texts(r@).contains(m) <==> e@.armed.contains(m),
{
    e.lemma_valid();
    lemma_ascending_finite(e@.armed);
    assert forall|m: Seq<char>| #[trigger] texts(r@).contains(m) <==> e@.armed.contains(m) by {
        assert(texts(r@).to_set().contains(m) <==> e@.armed.contains(m));
    }
}

/// `m` is armed and has no pairing record.
pub open spec fn has_lost_pairing(s: State, m: Seq<char>) -> bool {
    s.armed.contains(m) && s.unpaired.contains(m)
}

/// `m` is armed, not connected, and waited for since at least `ATTENTION_MS`.
pub open spec fn is_long_gone(s: State, m: Seq<char>, now: u64) -> bool {
    &&& s.armed.contains(m) && !s.connected.contains(m)
    &&& s.waiting_since.contains_key(m) && now - s.waiting_since[m] >= ATTENTION_MS
}

/// Only a person can help with `m`.
pub open spec fn needs_a_person(s: State, m: Seq<char>, now: u64) -> bool {
    has_lost_pairing(s, m) || is_long_gone(s, m, now)
}

/// Where armed devices have lost their pairing records, the sentence names exactly these, in
/// ascending order, whatever else is the case. `names` is the list of them.
pub proof fn lost_pairings_are_named(
    e: &Engine,
    bt_on: bool,
    privileged_ready: bool,
    now: u64,
    r: Option<String>,
) -> (names: Seq<Seq<char>>)
    requires
        e.wf(),
        call_ensures(Engine::attention, (e, bt_on, privileged_ready, now), r),
        exists|m: Seq<char>| has_lost_pairing(e@, m),
    ensures
        strictly_ascending(names),
        forall|m: Seq<char>| #[trigger] names.contains(m) <==> has_lost_pairing(e@, m),
        r matches Some(text) && text@ == joined(names, "、"@)
            + " 的配对记录不在了,要到系统设置里重新配对"@,
{
    e.lemma_valid();
    let lost = e@.lost();
    assert(lost.subset_of(e@.armed));
    vstd::set_lib::lemma_set_subset_finite(e@.armed, lost);
    lemma_ascending_finite(lost);
    let names = ascending(lost);
    assert forall|m: Seq<char>| #[trigger] names.contains(m) <==> has_lost_pairing(e@, m) by {
        assert(names.to_set().contains(m) <==> lost.contains(m));
    }
    let m = choose|m: Seq<char>| has_lost_pairing(e@, m);
    assert(lost.contains(m));
    names
}

/// Where Bluetooth is on, the privileged service ready and no pairing record lost, the sentence
/// names exactly the devices that are long gone, in ascending order. `names` is the list of them.
pub proof fn the_long_gone_are_named(e: &Engine, now: u64, r: Option<String>) -> (names: Seq<
    Seq<char>,
>)
    requires
        e.wf(),
        call_ensures(Engine::attention, (e, true, true, now), r),
        forall|m: Seq<char>| !has_lost_pairing(e@, m),
        exists|m: Seq<char>| is_long_gone(e@, m, now),
    ensures
        strictly_ascending(names),
        forall|m: Seq<char>| #[trigger] names.contains(m) <==> is_long_gone(e@, m, now),
        r matches Some(text) && text@ == joined(names, "、"@)
            + " 已断开较久,自动重连没能接回,可能需要开机"@,
{
    e.lemma_valid();
    let stale = e@.stale(now);
    assert forall|m: Seq<char>| !e@.lost().contains(m) by {
        assert(!has_lost_pairing(e@, m));
    }
    assert(e@.lost() =~= Set::empty());
    assert(stale.subset_of(e@.armed));
    vstd::set_lib::lemma_set_subset_finite(e@.armed, stale);
    lemma_ascending_finite(stale);
    let names = ascending(stale);
    assert forall|m: Seq<char>| #[trigger] names.contains(m) <==> is_long_gone(e@, m, now) by {
        assert(names.to_set().contains(m) <==> stale.contains(m));
    }
    let m = choose|m: Seq<char>| is_long_gone(e@, m, now);
    assert(stale.contains(m));
    names
}

/// A person is called exactly if some armed device has lost its pairing record or is long gone. Where
/// only the latter is the case, Bluetooth that is off is told first, then a privileged service that
/// is not ready.
pub proof fn a_person_is_called_when_needed(
    e: &Engine,
    bt_on: bool,
    privileged_ready: bool,
    now: u64,
    r: Option<String>,
)
    requires
        call_ensures(Engine::attention, (e, bt_on, privileged_ready, now), r),
    ensures
        r is Some <==> exists|m: Seq<char>| needs_a_person(e@, m, now),
        r is Some && (forall|m: Seq<char>| !has_lost_pairing(e@, m)) && !bt_on ==> r->0@
            == "蓝牙已关闭,布防中的设备无法回连"@,
        r is Some && (forall|m: Seq<char>| !has_lost_pairing(e@, m)) && bt_on && !privileged_ready
            ==> r->0@ == "Shizuku 未就绪,回连会退回到成功率很低的普通方式"@,
{
    let s = e@;
    assert forall|m: Seq<char>| s.lost().contains(m) == has_lost_pairing(s, m) by {}
    assert forall|m: Seq<char>| s.stale(now).contains(m) == is_long_gone(s, m, now) by {}
    if !s.lost().is_empty() {
        let m = s.lost().choose();
        assert(s.lost().contains(m));
        assert(needs_a_person(s, m, now));
    }
    if !s.stale(now).is_empty() {
        let m = s.stale(now).choose();
        assert(s.stale(now).contains(m));
        assert(needs_a_person(s, m, now));
    }
    if exists|m: Seq<char>| needs_a_person(s, m, now) {
        let m = choose|m: Seq<char>| needs_a_person(s, m, now);
        assert(s.lost().contains(m) || s.stale(now).contains(m));
    }
}

// ---- the log ----
/// What one more line does to the log. A line that repeats the last one is counted there, up to the
/// greatest count, and dated anew. Any other becomes the last line; where there are `LOG_CAP`
/// already, the oldest one goes. All other lines stay as they are, in their order.
pub proof fn a_line_is_counted_or_appended(log: Seq<LogLine>, now: u64, line: Seq<char>)
    requires
        log.len() <= LOG_CAP,
    ensures
        ({
            let z = noted(log, now, line);
            let again = log.len() > 0 && log[log.len() - 1].line == line;
            let dropped: int = if !again && log.len() == LOG_CAP {
                1
            } else {
                0
            };
            let kept: int = if again {
                log.len() - 1
            } else {
                log.len() - dropped
            };
            &&& z.len() == kept + 1
            &&& forall|i: int| 0 <= i < kept ==> #[trigger] z[i] == log[i + dropped]
            &&& z[kept].line == line && z[kept].at == now
            &&& !again ==> z[kept].repeat == 1
            &&& again ==> z[kept].repeat == vstd::math::min(
                log[kept].repeat + 1,
                usize::MAX as int,
            )
        }),
{
}

/// What the platform side reports goes into the log as it is, and changes nothing else.
pub proof fn a_report_goes_into_the_log(e: &mut Engine, now: u64, line: String)
    requires
        call_ensures(Engine::note_external, (e, now, line), ()),
    ensures
        final(e)@.log == noted(old(e)@.log, now, line@),
        final(e)@ == (State { log: final(e)@.log, ..old(e)@ }),
{
}

} // verus!
