//! The arming engine: events go in, decisions come out.
//!
//! The engine calls no platform function and reads no clock. The caller tells it what happened
//! (an advertisement arrived, a link changed, the user tapped a device) and when, and carries out
//! what it answers.

use vstd::hash_map::StringHashMap;
use vstd::hash_set::StringHashSet;
use vstd::prelude::*;

use crate::model::{age, log_valid, noted, shown, within, LogLine, ScanView, State, Verdict};
use crate::roster::{ascending, lemma_ascending, lemma_filter_lists, lists, Roster};
use crate::text::{decimal_text, join, texts};

verus! {

/// The least time between two attempts on one device that an advertisement brings about. Setting
/// up a connection takes seconds and must not be disturbed.
pub const RETRY_GAP_MS: u64 = 8_000;

/// The gap before a blind attempt, one that no advertisement calls for, at the start.
pub const BLIND_GAP_MS: u64 = 10_000;

/// The ceiling of the blind gap. Each blind attempt doubles the gap, since a device that is
/// switched off cannot answer; but where the platform suppresses scanning, blind attempts are the
/// only way left, so they never stop.
pub const BLIND_GAP_MAX_MS: u64 = 300_000;

/// How long a fresh link is believed against the platform, whose own view lags by some seconds.
pub const SETTLE_MS: u64 = 30_000;

/// How long scanning runs at full duty after a connection was lost. Low-power scanning is deaf
/// nine tenths of the time; after this span the device is most likely off.
pub const FAST_SCAN_MS: u64 = 120_000;

/// The least time between two claims by `Engine::refresh_low_latency_request` on one link. The
/// device takes its own parameters back after some seconds, so the low-latency parameters are
/// asserted again and again; but each change of parameters costs air time.
pub const LOW_LATENCY_REFRESH_MS: u64 = 15_000;

/// The least time between two keepalives on one link.
pub const KEEPALIVE_GAP_MS: u64 = 60_000;

/// The main switch of keepalives.
pub const KEEPALIVE_ENABLED: bool = true;

/// How long a device may stay away before a person is called. A little more than the ceiling of
/// the blind gap, so that the automatic way is tried to its end first.
pub const ATTENTION_MS: u64 = 360_000;

/// How many log lines are kept.
pub const LOG_CAP: usize = 60;

/// What to do about a device.
#[derive(Debug, PartialEq, Eq)]
pub enum Action {
    /// Connect to it.
    Connect,
    /// Leave it, for the reason given.
    Skip(&'static str),
}

impl View for Action {
    type V = Verdict;

    open spec fn view(&self) -> Verdict {
        match self {
            Action::Connect => Verdict::Connect,
            Action::Skip(reason) => Verdict::Skip(reason@),
        }
    }
}

/// How to scan.
#[derive(Debug, PartialEq, Eq)]
pub enum Scan {
    /// Scan for these addresses, anew where a scan is running; `fast` asks for full duty.
    Start { macs: Vec<String>, fast: bool },
    /// Do not scan: there is nothing to listen for.
    Stop,
}

impl View for Scan {
    type V = ScanView;

    open spec fn view(&self) -> ScanView {
        match self {
            Scan::Start { macs, fast } => ScanView::Start { macs: texts(macs@), fast: *fast },
            Scan::Stop => ScanView::Stop,
        }
    }
}

impl Clone for Scan {
    fn clone(&self) -> (r: Scan)
        ensures
            r@ == self@,
    {
        match self {
            Scan::Start { macs, fast } => Scan::Start { macs: copied(macs), fast: *fast },
            Scan::Stop => Scan::Stop,
        }
    }
}

impl Scan {
    /// Whether two instructions say the same.
    pub fn same(&self, other: &Scan) -> (r: bool)
        ensures
            r == (self@ == other@),
    {
        match (self, other) {
            (Scan::Stop, Scan::Stop) => true,
            (Scan::Start { macs: a, fast: x }, Scan::Start { macs: b, fast: y }) => {
                *x == *y && all_equal(a, b)
            },
            _ => false,
        }
    }
}

/// A copy of a list of strings.
fn copied(v: &Vec<String>) -> (r: Vec<String>)
    ensures
        texts(r@) == texts(v@),
{
    let mut r: Vec<String> = Vec::new();
    let mut i: usize = 0;
    while i < v.len()
        invariant
            i <= v.len(),
            r.len() == i,
            forall|k: int| 0 <= k < i ==> (#[trigger] r@[k])@ == v@[k]@,
        decreases v.len() - i,
    {
        r.push(v[i].clone());
        i = i + 1;
    }
    assert(texts(r@) =~= texts(v@));
    r
}

/// Whether two lists hold the same strings in the same order.
fn all_equal(a: &Vec<String>, b: &Vec<String>) -> (r: bool)
    ensures
        r == (texts(a@) == texts(b@)),
{
    if a.len() != b.len() {
        assert(texts(a@).len() != texts(b@).len());
        return false;
    }
    let mut i: usize = 0;
    while i < a.len()
        invariant
            i <= a.len(),
            a.len() == b.len(),
            forall|k: int| 0 <= k < i ==> (#[trigger] a@[k])@ == b@[k]@,
        decreases a.len() - i,
    {
        if a[i] != b[i] {
            assert(texts(a@)[i as int] != texts(b@)[i as int]);
            return false;
        }
        i = i + 1;
    }
    assert(texts(a@) =~= texts(b@));
    true
}

/// A device as it is shown to the user.
#[derive(Debug, PartialEq, Eq)]
pub struct Row {
    pub mac: String,
    pub armed: bool,
    pub state: String,
}

/// A log line. Its moment is given, not read, so that the engine needs no clock.
struct Entry {
    /// When it happened last.
    at_ms: u64,
    line: String,
    /// How often it happened in a row.
    repeat: usize,
}

impl View for Entry {
    type V = LogLine;

    closed spec fn view(&self) -> LogLine {
        LogLine { at: self.at_ms, line: self.line@, repeat: self.repeat }
    }
}

spec fn log_view(log: Seq<Entry>) -> Seq<LogLine> {
    log.map_values(|e: Entry| e@)
}

spec fn scan_view(scan: Option<Scan>) -> Option<ScanView> {
    match scan {
        Some(s) => Some(s@),
        None => None,
    }
}

/// The engine.
pub struct Engine {
    armed: Roster,
    last_try: StringHashMap<u64>,
    connected: StringHashSet,
    blind_gap: StringHashMap<u64>,
    last_scan: Option<Scan>,
    acl_since: StringHashMap<u64>,
    last_keepalive: StringHashMap<u64>,
    waiting_since: StringHashMap<u64>,
    low_latency_taken: StringHashSet,
    last_low_latency: StringHashMap<u64>,
    unpaired: StringHashSet,
    log: Vec<Entry>,
}

impl View for Engine {
    type V = State;

    closed spec fn view(&self) -> State {
        State {
            armed: self.armed@,
            connected: self.connected@,
            unpaired: self.unpaired@,
            last_try: self.last_try@,
            blind_gap: self.blind_gap@,
            acl_since: self.acl_since@,
            waiting_since: self.waiting_since@,
            last_keepalive: self.last_keepalive@,
            low_latency_taken: self.low_latency_taken@,
            last_low_latency: self.last_low_latency@,
            last_scan: scan_view(self.last_scan),
            log: log_view(self.log@),
        }
    }
}

impl Default for Engine {
    fn default() -> (r: Engine)
        ensures
            r.wf(),
            r@ == State::initial(),
    {
        Engine::new()
    }
}

/// `mac` followed by `tail`.
fn about(mac: &str, tail: &str) -> (r: String)
    ensures
        r@ == mac@ + tail@,
{
    let mut r = mac.to_owned();
    r.append(tail);
    r
}

/// Whether less than `window` has passed since the moment recorded for `mac`.
fn is_within(times: &StringHashMap<u64>, mac: &str, now_ms: u64, window: u64) -> (r: bool)
    requires
        window > 0,
    ensures
        r == within(times@, mac@, now_ms, window),
{
    match times.get(mac) {
        Some(at) => now_ms.saturating_sub(*at) < window,
        None => false,
    }
}

impl Engine {
    /// The fields agree with each other, and the state is valid.
    pub closed spec fn wf(&self) -> bool {
        &&& self.armed.wf()
        &&& self@.valid()
    }

    /// A well-formed engine is in a valid state.
    pub proof fn lemma_valid(&self)
        requires
            self.wf(),
        ensures
            self@.valid(),
    {
    }

    /// An engine to which nothing has happened.
    pub fn new() -> (r: Engine)
        ensures
            r.wf(),
            r@ == State::initial(),
    {
        let r = Engine {
            armed: Roster::new(),
            last_try: StringHashMap::new(),
            connected: StringHashSet::new(),
            blind_gap: StringHashMap::new(),
            last_scan: None,
            acl_since: StringHashMap::new(),
            last_keepalive: StringHashMap::new(),
            waiting_since: StringHashMap::new(),
            low_latency_taken: StringHashSet::new(),
            last_low_latency: StringHashMap::new(),
            unpaired: StringHashSet::new(),
            log: Vec::new(),
        };
        assert(r@ =~= State::initial());
        r
    }

    /// Writes a line into the log. A line that repeats the last one is only counted, and dated
    /// anew; beyond `LOG_CAP` lines the oldest one goes.
    fn note(&mut self, now_ms: u64, line: String)
        requires
            old(self).wf(),
        ensures
            final(self).wf(),
            final(self)@ == old(self)@.note(now_ms, line@),
    {
        let ghost before = log_view(self.log@);
        let n = self.log.len();
        if n > 0 && self.log[n - 1].line == line {
            let repeat = self.log[n - 1].repeat.saturating_add(1);
            let _ = self.log.pop();
            self.log.push(Entry { at_ms: now_ms, line, repeat });
            assert(log_view(self.log@) =~= noted(before, now_ms, line@));
        } else {
            self.log.push(Entry { at_ms: now_ms, line, repeat: 1 });
            if self.log.len() > LOG_CAP {
                let _ = self.log.remove(0);
            }
            assert(log_view(self.log@) =~= noted(before, now_ms, line@));
        }
        assert(log_valid(noted(before, now_ms, line@)));
    }

    /// Corrects the record by what the platform says of the connection.
    ///
    /// Link events alone do not suffice: a process that was frozen or killed misses some, and a
    /// stale "connected" would stop scanning for good. Within the settling window of a fresh link
    /// the platform's denial does not count.
    fn sync_connected(&mut self, mac: &str, system_connected: bool, now_ms: u64)
        requires
            old(self).armed.wf(),
        ensures
            final(self).armed.wf(),
            final(self)@ == old(self)@.synced(mac@, system_connected, now_ms),
    {
        if system_connected {
            self.connected.insert(mac.to_owned());
            assert(self@ =~= old(self)@.synced(mac@, system_connected, now_ms));
            return;
        }
        if is_within(&self.acl_since, mac, now_ms, SETTLE_MS) {
            return;
        }
        if self.connected.remove(mac) {
            self.waiting_since.insert(mac.to_owned(), now_ms);
        }
        self.low_latency_taken.remove(mac);
        self.last_low_latency.remove(mac);
        assert(self@ =~= old(self)@.synced(mac@, system_connected, now_ms));
    }

    /// An advertisement of `mac` has been heard; `system_connected` is what the platform says of
    /// the connection at this moment.
    pub fn on_advertisement(&mut self, mac: &str, system_connected: bool, now_ms: u64) -> (r: Action)
        requires
            old(self).wf(),
        ensures
            final(self).wf(),
            r@ == old(self)@.advertisement_verdict(mac@, system_connected, now_ms),
            final(self)@ == old(self)@.after_advertisement(mac@, system_connected, now_ms),
    {
        if !self.armed.contains(mac) {
            return Action::Skip("未布防");
        }
        self.sync_connected(mac, system_connected, now_ms);
        // The device is there, so there is no reason left to back off.
        self.blind_gap.remove(mac);
        assert(self@.valid());
        // The corrected record decides, not the platform: it denies a link that is being set up.
        if self.connected.contains(mac) {
            self.note(now_ms, about(mac, " 系统已连接,让路"));
            assert(self@ =~= old(self)@.after_advertisement(mac@, system_connected, now_ms));
            return Action::Skip("系统已连接");
        }
        if is_within(&self.last_try, mac, now_ms, RETRY_GAP_MS) {
            assert(self@ =~= old(self)@.after_advertisement(mac@, system_connected, now_ms));
            return Action::Skip("连接中");
        }
        self.last_try.insert(mac.to_owned(), now_ms);
        assert(self@.valid());
        self.note(now_ms, about(mac, " 发起连接"));
        assert(self@ =~= old(self)@.after_advertisement(mac@, system_connected, now_ms));
        Action::Connect
    }

    /// The timer has come round to `mac`: tries blindly, without an advertisement to go by.
    ///
    /// Where the platform suppresses scanning nothing is heard, and this is the only way left. A
    /// device that is off makes every such attempt fail, so the gap doubles each time.
    pub fn on_tick(&mut self, mac: &str, system_connected: bool, now_ms: u64) -> (r: Action)
        requires
            old(self).wf(),
        ensures
            final(self).wf(),
            r@ == old(self)@.tick_verdict(mac@, system_connected, now_ms),
            final(self)@ == old(self)@.after_tick(mac@, system_connected, now_ms),
    {
        if !self.armed.contains(mac) {
            return Action::Skip("未布防");
        }
        self.sync_connected(mac, system_connected, now_ms);
        if self.connected.contains(mac) {
            self.blind_gap.remove(mac);
            assert(self@.valid());
            self.note(now_ms, about(mac, " 系统已连接,让路"));
            assert(self@ =~= old(self)@.after_tick(mac@, system_connected, now_ms));
            return Action::Skip("系统已连接");
        }
        let gap: u64 = match self.blind_gap.get(mac) {
            Some(gap) => *gap,
            None => BLIND_GAP_MS,
        };
        assert(gap == old(self)@.gap(mac@));
        assert(BLIND_GAP_MS <= gap <= BLIND_GAP_MAX_MS);
        if is_within(&self.last_try, mac, now_ms, gap) {
            return Action::Skip("退避中");
        }
        self.last_try.insert(mac.to_owned(), now_ms);
        let next: u64 = if gap * 2 <= BLIND_GAP_MAX_MS {
            gap * 2
        } else {
            BLIND_GAP_MAX_MS
        };
        self.blind_gap.insert(mac.to_owned(), next);
        assert(self@.valid());
        self.note(now_ms, about(mac, " 盲试连接"));
        assert(self@ =~= old(self)@.after_tick(mac@, system_connected, now_ms));
        Action::Connect
    }

    /// The link of `mac` has come up, or has gone down, or could not be set up.
    ///
    /// The platform reports a dropped link and a failed attempt alike. What tells them apart is
    /// whether the device was taken to be connected.
    pub fn on_connection_change(&mut self, mac: &str, connected: bool, now_ms: u64)
        requires
            old(self).wf(),
        ensures
            final(self).wf(),
            final(self)@ == old(self)@.after_connection_change(mac@, connected, now_ms),
    {
        if connected {
            self.acl_since.insert(mac.to_owned(), now_ms);
        } else {
            self.acl_since.remove(mac);
        }
        let was_connected = self.connected.contains(mac);
        self.sync_connected(mac, connected, now_ms);
        if connected {
            self.blind_gap.remove(mac);
            assert(self@.valid());
            self.note(now_ms, about(mac, " 已连接"));
        } else if was_connected {
            // A real drop: the next advertisement must be able to take over at once.
            self.last_try.remove(mac);
            self.blind_gap.remove(mac);
            assert(self@.valid());
            self.note(now_ms, about(mac, " 断开,等待广播"));
        } else {
            // A failed attempt: the backoff has to go on, or a device that is off would be tried
            // at the highest rate without end.
            assert(self@.valid());
            self.note(now_ms, about(mac, " 连接未成功,继续退避"));
        }
        assert(self@ =~= old(self)@.after_connection_change(mac@, connected, now_ms));
    }

    /// Claims the one untimed low-latency request of the present link. Only an armed device that
    /// is connected has one: shorter intervals cost both sides power, which is not to be decided
    /// for devices the user has not armed. The claim starts no `LOW_LATENCY_REFRESH_MS` window.
    pub fn take_low_latency_request(&mut self, mac: &str) -> (r: bool)
        requires
            old(self).wf(),
        ensures
            final(self).wf(),
            r == old(self)@.low_latency_open(mac@),
            final(self)@ == old(self)@.after_low_latency(mac@),
    {
        if !(self.armed.contains(mac) && self.connected.contains(mac)) {
            return false;
        }
        let r = self.low_latency_taken.insert(mac.to_owned());
        assert(self@ =~= old(self)@.after_low_latency(mac@));
        r
    }

    /// Claims an assertion of the low-latency parameters on a link of an armed device: at once on
    /// a new link, and again whenever `LOW_LATENCY_REFRESH_MS` have passed since the last such
    /// claim. It uses up the untimed request of the link.
    pub fn refresh_low_latency_request(&mut self, mac: &str, now_ms: u64) -> (r: bool)
        requires
            old(self).wf(),
        ensures
            final(self).wf(),
            r == old(self)@.low_latency_due(mac@, now_ms),
            final(self)@ == old(self)@.after_low_latency_refresh(mac@, now_ms),
    {
        if !(self.armed.contains(mac) && self.connected.contains(mac)) {
            return false;
        }
        if is_within(&self.last_low_latency, mac, now_ms, LOW_LATENCY_REFRESH_MS) {
            return false;
        }
        self.low_latency_taken.insert(mac.to_owned());
        self.last_low_latency.insert(mac.to_owned(), now_ms);
        assert(self@ =~= old(self)@.after_low_latency_refresh(mac@, now_ms));
        true
    }

    /// Gives back a claimed low-latency request that could not be sent, so that it can be claimed
    /// again.
    pub fn return_low_latency_permit(&mut self, mac: &str)
        requires
            old(self).wf(),
        ensures
            final(self).wf(),
            final(self)@ == old(self)@.after_low_latency_return(mac@),
    {
        self.low_latency_taken.remove(mac);
        self.last_low_latency.remove(mac);
        assert(self@ =~= old(self)@.after_low_latency_return(mac@));
    }

    /// Claims a keepalive, unless the main switch is off.
    pub fn take_keepalive(&mut self, mac: &str, now_ms: u64) -> (r: bool)
        requires
            old(self).wf(),
        ensures
            final(self).wf(),
            r == (KEEPALIVE_ENABLED && old(self)@.keepalive_due(mac@, now_ms)),
            final(self)@ == (if KEEPALIVE_ENABLED {
                old(self)@.after_keepalive(mac@, now_ms)
            } else {
                old(self)@
            }),
    {
        KEEPALIVE_ENABLED && self.keepalive_due(mac, now_ms)
    }

    /// Claims a keepalive whatever the main switch says: for an armed device that is connected,
    /// once per `KEEPALIVE_GAP_MS`.
    pub fn keepalive_due(&mut self, mac: &str, now_ms: u64) -> (r: bool)
        requires
            old(self).wf(),
        ensures
            final(self).wf(),
            r == old(self)@.keepalive_due(mac@, now_ms),
            final(self)@ == old(self)@.after_keepalive(mac@, now_ms),
    {
        if !(self.armed.contains(mac) && self.connected.contains(mac)) {
            return false;
        }
        if is_within(&self.last_keepalive, mac, now_ms, KEEPALIVE_GAP_MS) {
            return false;
        }
        self.last_keepalive.insert(mac.to_owned(), now_ms);
        assert(self@ =~= old(self)@.after_keepalive(mac@, now_ms));
        true
    }

    /// Whether an attempt on `mac` went out so recently that it may still succeed. While it does,
    /// no advertisement of the device is acted on.
    fn attempt_in_flight(&self, mac: &str, now_ms: u64) -> (r: bool)
        ensures
            r == self@.in_flight(mac@, now_ms),
    {
        is_within(&self.last_try, mac, now_ms, RETRY_GAP_MS)
    }

    /// The scan that the present state calls for: the armed devices that are still waited for.
    ///
    /// A connected device is never scanned for, since scanning takes radio time from its link;
    /// nor is one without a pairing record, which could not be connected; nor one with an attempt
    /// in flight, whose advertisements would not be acted on.
    fn desired_scan(&self, now_ms: u64) -> (r: Scan)
        requires
            self.wf(),
        ensures
            r@ == self@.desired_scan(now_ms),
    {
        let ghost pred = |m: Seq<char>| self@.awaited(m, now_ms);
        let mut waiting: Vec<String> = Vec::new();
        let mut fast = false;
        let mut i: usize = 0;
        proof {
            self.armed.lemma_listing();
            assert(self.armed.listing().take(0).filter(pred) =~= Seq::<Seq<char>>::empty()) by {
                reveal(Seq::filter);
            }
        }
        while i < self.armed.len()
            invariant
                self.wf(),
                lists(self.armed.listing(), self@.armed),
                pred == (|m: Seq<char>| self@.awaited(m, now_ms)),
                i <= self.armed.listing().len(),
                texts(waiting@) == self.armed.listing().take(i as int).filter(pred),
                fast <==> exists|k: int|
                    0 <= k < i && self@.awaited(#[trigger] self.armed.listing()[k], now_ms)
                        && within(
                        self@.waiting_since,
                        self.armed.listing()[k],
                        now_ms,
                        FAST_SCAN_MS,
                    ),
            decreases self.armed.listing().len() - i,
        {
            let mac = self.armed.at(i);
            let ghost q = self.armed.listing();
            let ghost before = waiting@;
            proof {
                assert(q.to_set().contains(q[i as int]));
                assert(q.take(i + 1) =~= q.take(i as int).push(q[i as int]));
                q.take(i as int).lemma_filter_push(q[i as int], pred);
            }
            if !self.connected.contains(mac.as_str()) && !self.unpaired.contains(mac.as_str())
                && !self.attempt_in_flight(mac.as_str(), now_ms) {
                if is_within(&self.waiting_since, mac.as_str(), now_ms, FAST_SCAN_MS) {
                    fast = true;
                    assert(self@.awaited(q[i as int], now_ms));
                }
                waiting.push(mac.clone());
                assert(texts(waiting@) =~= texts(before).push(mac@));
            }
            i = i + 1;
        }
        proof {
            let q = self.armed.listing();
            assert(q.take(i as int) =~= q);
            lemma_filter_lists(q, self@.armed, pred);
            assert(self@.armed.filter(pred) =~= self@.scan_targets(now_ms));
            lemma_ascending(texts(waiting@), self@.scan_targets(now_ms));
            if fast {
                let k = choose|k: int|
                    0 <= k < i && self@.awaited(#[trigger] q[k], now_ms) && within(
                        self@.waiting_since,
                        q[k],
                        now_ms,
                        FAST_SCAN_MS,
                    );
                assert(self@.awaited(q[k], now_ms));
            }
            if self@.fast_scan(now_ms) {
                let m = choose|m: Seq<char>| #[trigger]
                    self@.awaited(m, now_ms) && within(self@.waiting_since, m, now_ms, FAST_SCAN_MS);
                assert(q.to_set().contains(m));
                let k = q.index_of(m);
                assert(q[k] == m);
                assert(self@.awaited(q[k], now_ms));
            }
        }
        if waiting.len() == 0 {
            proof {
                assert(self@.scan_targets(now_ms) =~= Set::empty());
            }
            return Scan::Stop;
        }
        proof {
            assert(texts(waiting@).to_set().contains(texts(waiting@)[0]));
        }
        Scan::Start { macs: waiting, fast }
    }

    /// Orders the scan that the present state calls for.
    fn commit_scan_at(&mut self, now_ms: u64) -> (r: Scan)
        requires
            old(self).wf(),
        ensures
            final(self).wf(),
            r@ == old(self)@.desired_scan(now_ms),
            final(self)@ == old(self)@.after_scan_command(now_ms),
    {
        let want = self.desired_scan(now_ms);
        self.last_scan = Some(want.clone());
        assert(self@ =~= old(self)@.after_scan_command(now_ms));
        want
    }

    /// Orders the scan that the present state calls for, whether or not it was ordered before:
    /// after permission was granted, or after the platform ended a scan.
    pub fn scan_command(&mut self, now_ms: u64) -> (r: Scan)
        requires
            old(self).wf(),
        ensures
            final(self).wf(),
            r@ == old(self)@.desired_scan(now_ms),
            final(self)@ == old(self)@.after_scan_command(now_ms),
    {
        self.commit_scan_at(now_ms)
    }

    /// Orders a scan only where it differs from the one ordered last: stopping and starting a
    /// scan at every event would itself disturb the radio.
    pub fn scan_if_changed(&mut self, now_ms: u64) -> (r: Option<Scan>)
        requires
            old(self).wf(),
        ensures
            final(self).wf(),
            r is None <==> old(self)@.last_scan == Some(old(self)@.desired_scan(now_ms)),
            r matches Some(scan) ==> scan@ == old(self)@.desired_scan(now_ms),
            final(self)@ == old(self)@.after_scan_command(now_ms),
    {
        let want = self.desired_scan(now_ms);
        let same = match &self.last_scan {
            Some(last) => last.same(&want),
            None => false,
        };
        if same {
            assert(self@ =~= old(self)@.after_scan_command(now_ms));
            return None;
        }
        Some(self.commit_scan_at(now_ms))
    }

    /// The platform could not start the scan. The engine remembers what it ordered, not what the
    /// platform does, so without this report the scan would never be ordered again.
    pub fn on_scan_failed(&mut self, now_ms: u64)
        requires
            old(self).wf(),
        ensures
            final(self).wf(),
            final(self)@ == old(self)@.after_scan_failure(now_ms),
    {
        self.last_scan = None;
        assert(self@.valid());
        self.note(now_ms, "扫描没能开起来,下一轮重试".to_owned());
        assert(self@ =~= old(self)@.after_scan_failure(now_ms));
    }

    /// The user has tapped a device: arms it, or disarms it.
    pub fn toggle(&mut self, mac: &str, now_ms: u64) -> (r: Scan)
        requires
            old(self).wf(),
        ensures
            final(self).wf(),
            final(self)@ == old(self)@.after_toggle(mac@, now_ms),
            final(self)@.last_scan == Some(r@),
    {
        if self.armed.remove(mac) {
            self.last_try.remove(mac);
            assert(self@ =~= (State {
                armed: old(self)@.armed.remove(mac@),
                last_try: old(self)@.last_try.remove(mac@),
                ..old(self)@
            }));
            assert(self@.valid());
            self.note(now_ms, about(mac, " 撤防"));
        } else {
            self.armed.insert(mac);
            self.waiting_since.insert(mac.to_owned(), now_ms);
            assert(self@ =~= (State {
                armed: old(self)@.armed.insert(mac@),
                waiting_since: old(self)@.waiting_since.insert(mac@, now_ms),
                ..old(self)@
            }));
            assert(self@.valid());
            self.note(now_ms, about(mac, " 布防"));
        }
        let r = self.commit_scan_at(now_ms);
        assert(self@ =~= old(self)@.after_toggle(mac@, now_ms));
        r
    }

    /// Arms the devices of a saved list again. No scan is ordered: the devices may well be
    /// connected, which only the platform can tell.
    pub fn restore(&mut self, macs: Vec<String>, now_ms: u64)
        requires
            old(self).wf(),
        ensures
            final(self).wf(),
            final(self)@ == old(self)@.after_restore(texts(macs@), now_ms),
    {
        let ghost all = texts(macs@);
        let ghost since = old(self)@.waiting_since;
        let mut i: usize = 0;
        while i < macs.len()
            invariant
                i <= macs.len(),
                all == texts(macs@),
                since == old(self)@.waiting_since,
                self.wf(),
                self@ == (State {
                    armed: self@.armed,
                    waiting_since: self@.waiting_since,
                    ..old(self)@
                }),
                forall|m: Seq<char>| #[trigger]
                    self@.armed.contains(m) <==> old(self)@.armed.contains(m) || all.take(
                        i as int,
                    ).contains(m),
                forall|m: Seq<char>| #[trigger]
                    self@.waiting_since.contains_key(m) <==> since.contains_key(m) || all.take(
                        i as int,
                    ).contains(m),
                forall|m: Seq<char>| #[trigger]
                    self@.waiting_since.contains_key(m) ==> self@.waiting_since[m] == (if all.take(
                        i as int,
                    ).contains(m) {
                        now_ms
                    } else {
                        since[m]
                    }),
            decreases macs.len() - i,
        {
            let mac = macs[i].as_str();
            let ghost before = self@;
            self.waiting_since.insert(mac.to_owned(), now_ms);
            self.armed.insert(mac);
            assert(self@ =~= (State {
                armed: before.armed.insert(mac@),
                waiting_since: before.waiting_since.insert(mac@, now_ms),
                ..before
            }));
            assert(self@.valid());
            proof {
                let done = all.take(i as int);
                let next = all.take(i + 1);
                assert(next =~= done.push(mac@));
                assert forall|m: Seq<char>| next.contains(m) <==> done.contains(m) || m == mac@ by {
                    if done.contains(m) {
                        assert(next[done.index_of(m)] == m);
                    }
                    assert(next[i as int] == mac@);
                    if next.contains(m) {
                        let k = next.index_of(m);
                        if k < i {
                            assert(done[k] == m);
                        }
                    }
                }
            }
            i = i + 1;
        }
        proof {
            assert(all.take(i as int) =~= all);
            assert(self@.armed =~= old(self)@.armed.union(all.to_set()));
            assert(self@.waiting_since =~= since.union_prefer_right(
                Map::new(|m: Seq<char>| all.contains(m), |m: Seq<char>| now_ms),
            ));
        }
        let mut line = "恢复布防 ".to_owned();
        line.append(decimal_text(self.armed.len() as u64).as_str());
        line.append(" 台");
        self.note(now_ms, line);
        assert(self@ =~= old(self)@.after_restore(all, now_ms));
    }

    /// The armed devices without a pairing record, in ascending order.
    fn lost_macs(&self) -> (r: Vec<String>)
        requires
            self.wf(),
        ensures
            texts(r@) == ascending(self@.lost()),
            r.len() == 0 <==> self@.lost().is_empty(),
    {
        let ghost pred = |m: Seq<char>| self@.unpaired.contains(m);
        let mut r: Vec<String> = Vec::new();
        let mut i: usize = 0;
        proof {
            self.armed.lemma_listing();
            assert(self.armed.listing().take(0).filter(pred) =~= Seq::<Seq<char>>::empty()) by {
                reveal(Seq::filter);
            }
        }
        while i < self.armed.len()
            invariant
                self.wf(),
                pred == (|m: Seq<char>| self@.unpaired.contains(m)),
                i <= self.armed.listing().len(),
                texts(r@) == self.armed.listing().take(i as int).filter(pred),
            decreases self.armed.listing().len() - i,
        {
            let mac = self.armed.at(i);
            let ghost q = self.armed.listing();
            let ghost before = r@;
            proof {
                assert(q.take(i + 1) =~= q.take(i as int).push(q[i as int]));
                q.take(i as int).lemma_filter_push(q[i as int], pred);
            }
            if self.unpaired.contains(mac.as_str()) {
                r.push(mac.clone());
                assert(texts(r@) =~= texts(before).push(mac@));
            }
            i = i + 1;
        }
        proof {
            let q = self.armed.listing();
            assert(q.take(i as int) =~= q);
            lemma_filter_lists(q, self@.armed, pred);
            assert(self@.armed.filter(pred) =~= self@.lost());
            lemma_ascending(texts(r@), self@.lost());
            if r.len() == 0 {
                assert(self@.lost() =~= Set::empty());
            } else {
                assert(texts(r@).to_set().contains(texts(r@)[0]));
            }
        }
        r
    }

    /// The armed devices that have been waited for too long, in ascending order.
    fn stale_macs(&self, now_ms: u64) -> (r: Vec<String>)
        requires
            self.wf(),
        ensures
            texts(r@) == ascending(self@.stale(now_ms)),
            r.len() == 0 <==> self@.stale(now_ms).is_empty(),
    {
        let ghost pred = |m: Seq<char>| self@.overdue(m, now_ms);
        let mut r: Vec<String> = Vec::new();
        let mut i: usize = 0;
        proof {
            self.armed.lemma_listing();
            assert(self.armed.listing().take(0).filter(pred) =~= Seq::<Seq<char>>::empty()) by {
                reveal(Seq::filter);
            }
        }
        while i < self.armed.len()
            invariant
                self.wf(),
                lists(self.armed.listing(), self@.armed),
                pred == (|m: Seq<char>| self@.overdue(m, now_ms)),
                i <= self.armed.listing().len(),
                texts(r@) == self.armed.listing().take(i as int).filter(pred),
            decreases self.armed.listing().len() - i,
        {
            let mac = self.armed.at(i);
            let ghost q = self.armed.listing();
            let ghost before = r@;
            proof {
                assert(q.to_set().contains(q[i as int]));
                assert(q.take(i + 1) =~= q.take(i as int).push(q[i as int]));
                q.take(i as int).lemma_filter_push(q[i as int], pred);
            }
            let long = match self.waiting_since.get(mac.as_str()) {
                Some(since) => now_ms.saturating_sub(*since) >= ATTENTION_MS,
                None => false,
            };
            if long && !self.connected.contains(mac.as_str()) {
                r.push(mac.clone());
                assert(texts(r@) =~= texts(before).push(mac@));
            }
            i = i + 1;
        }
        proof {
            let q = self.armed.listing();
            assert(q.take(i as int) =~= q);
            lemma_filter_lists(q, self@.armed, pred);
            assert(self@.armed.filter(pred) =~= self@.stale(now_ms));
            lemma_ascending(texts(r@), self@.stale(now_ms));
            if r.len() == 0 {
                assert(self@.stale(now_ms) =~= Set::empty());
            } else {
                assert(texts(r@).to_set().contains(texts(r@)[0]));
            }
        }
        r
    }

    /// What only a person can put right, as a sentence for a notification; `None` where there is
    /// nothing and a notification is to be withdrawn.
    ///
    /// A lost pairing record is a plain fact and is told at once. Everything else waits until some
    /// device is overdue, or each start would raise a false alarm before the privileged service
    /// is bound.
    pub fn attention(&self, bt_on: bool, privileged_ready: bool, now_ms: u64) -> (r: Option<String>)
        requires
            self.wf(),
        ensures
            r is Some <==> self@.attention(bt_on, privileged_ready, now_ms) is Some,
            r matches Some(text) ==> Some(text@) == self@.attention(
                bt_on,
                privileged_ready,
                now_ms,
            ),
    {
        let lost = self.lost_macs();
        if lost.len() > 0 {
            return Some(
                about(
                    join(&lost, "、").as_str(),
                    " 的配对记录不在了,要到系统设置里重新配对",
                ),
            );
        }
        let stale = self.stale_macs(now_ms);
        if stale.len() == 0 {
            return None;
        }
        // Bluetooth first: without it the privileged service can do nothing; and with both in
        // place, the device itself must be away.
        if !bt_on {
            return Some("蓝牙已关闭,布防中的设备无法回连".to_owned());
        }
        if !privileged_ready {
            return Some(
                "Shizuku 未就绪,回连会退回到成功率很低的普通方式".to_owned(),
            );
        }
        Some(
            about(
                join(&stale, "、").as_str(),
                " 已断开较久,自动重连没能接回,可能需要开机",
            ),
        )
    }

    /// The platform no longer has a pairing record of `mac`, so the device cannot be connected
    /// and is not scanned for.
    pub fn on_unpaired(&mut self, mac: &str, now_ms: u64)
        requires
            old(self).wf(),
        ensures
            final(self).wf(),
            final(self)@ == old(self)@.after_unpaired(mac@, now_ms),
    {
        if self.unpaired.insert(mac.to_owned()) {
            assert(self@.valid());
            self.note(now_ms, about(mac, " 配对记录不在了"));
        }
        assert(self@ =~= old(self)@.after_unpaired(mac@, now_ms));
    }

    /// The pairing record of `mac` is back. The device is waited for from now on, not from some
    /// moment hours ago.
    pub fn on_paired(&mut self, mac: &str, now_ms: u64)
        requires
            old(self).wf(),
        ensures
            final(self).wf(),
            final(self)@ == old(self)@.after_paired(mac@, now_ms),
    {
        if self.unpaired.remove(mac) {
            self.waiting_since.insert(mac.to_owned(), now_ms);
            assert(self@.valid());
            self.note(now_ms, about(mac, " 已重新配对"));
        }
        assert(self@ =~= old(self)@.after_paired(mac@, now_ms));
    }

    /// Whether `mac` is known to have no pairing record.
    pub fn is_unpaired(&self, mac: &str) -> (r: bool)
        ensures
            r == self@.unpaired.contains(mac@),
    {
        self.unpaired.contains(mac)
    }

    /// The armed devices in ascending order, to be saved.
    pub fn armed_macs(&self) -> (r: Vec<String>)
        requires
            self.wf(),
        ensures
            texts(r@) == ascending(self@.armed),
    {
        self.armed.to_vec()
    }

    /// What the user sees of a device.
    pub fn row(&self, mac: &str) -> (r: Row)
        requires
            self.wf(),
        ensures
            r.mac@ == mac@,
            r.armed == self@.armed.contains(mac@),
            r.state@ == self@.condition(mac@),
    {
        let armed = self.armed.contains(mac);
        let connected = self.connected.contains(mac);
        let state = match (armed, connected) {
            (false, true) => "系统已连接",
            (false, false) => "未布防",
            (true, true) => "已连接",
            (true, false) => {
                if self.last_try.contains_key(mac) {
                    "正在连接"
                } else {
                    "等待广播"
                }
            },
        };
        Row { mac: mac.to_owned(), armed, state: state.to_owned() }
    }

    /// The event log, oldest line first, each line with its age.
    pub fn log(&self, now_ms: u64) -> (r: Vec<String>)
        ensures
            texts(r@) == self@.shown_log(now_ms),
    {
        let mut r: Vec<String> = Vec::new();
        let mut i: usize = 0;
        while i < self.log.len()
            invariant
                i <= self.log.len(),
                r.len() == i,
                forall|k: int| 0 <= k < i ==> (#[trigger] r@[k])@ == shown(self.log@[k]@, now_ms),
            decreases self.log.len() - i,
        {
            let entry = &self.log[i];
            let mut text = ago(now_ms.saturating_sub(entry.at_ms));
            text.append("  ");
            text.append(entry.line.as_str());
            if entry.repeat > 1 {
                text.append(" ×");
                text.append(decimal_text(entry.repeat as u64).as_str());
            }
            r.push(text);
            i = i + 1;
        }
        assert(texts(r@) =~= self@.shown_log(now_ms));
        r
    }

    /// Takes an error of the platform side into the log, where the user can see it.
    pub fn note_external(&mut self, now_ms: u64, line: String)
        requires
            old(self).wf(),
        ensures
            final(self).wf(),
            final(self)@ == old(self)@.note(now_ms, line@),
    {
        self.note(now_ms, line);
    }
}

/// A time span in words. Whoever reads it only wants to know whether it was just now or long ago.
pub fn ago(delta_ms: u64) -> (r: String)
    ensures
        r@ == age(delta_ms as nat),
{
    let seconds: u64 = delta_ms / 1000;
    if seconds == 0 {
        "刚刚".to_owned()
    } else if seconds < 60 {
        about(decimal_text(seconds).as_str(), "秒前")
    } else if seconds < 3600 {
        about(decimal_text(seconds / 60).as_str(), "分前")
    } else {
        about(decimal_text(seconds / 3600).as_str(), "小时前")
    }
}

} // verus!
