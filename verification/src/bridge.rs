//! What passes between the engine and the platform side: lists as text, rows, and orders.

use vstd::prelude::*;

use crate::engine::{Action, Engine, Scan, KEEPALIVE_ENABLED};
use crate::model::{ScanView, State, Verdict};
use crate::roster::ascending;
use crate::text::{before_first, join, joined, lines, split_first, split_lines, texts};

verus! {

/// The addresses in a saved list: one per line, empty lines aside.
pub open spec fn saved_list(text: Seq<char>) -> Seq<Seq<char>> {
    lines(text).filter(|l: Seq<char>| l.len() > 0)
}

/// Reads a saved list.
pub fn parse_saved(text: &str) -> (r: Vec<String>)
    ensures
        texts(r@) == saved_list(text@),
{
    let all = split_lines(text);
    let ghost q = lines(text@);
    let ghost pred = |l: Seq<char>| l.len() > 0;
    let mut r: Vec<String> = Vec::new();
    let mut i: usize = 0;
    proof {
        assert(q.take(0).filter(pred) =~= Seq::<Seq<char>>::empty()) by {
            reveal(Seq::filter);
        }
    }
    while i < all.len()
        invariant
            i <= all.len(),
            q == texts(all@),
            pred == (|l: Seq<char>| l.len() > 0),
            texts(r@) == q.take(i as int).filter(pred),
        decreases all.len() - i,
    {
        let ghost before = r@;
        let line = &all[i];
        proof {
            assert(q.take(i + 1) =~= q.take(i as int).push(q[i as int]));
            q.take(i as int).lemma_filter_push(q[i as int], pred);
        }
        if !line.as_str().is_empty() {
            r.push(line.clone());
            assert(texts(r@) =~= texts(before).push(line@));
        }
        i = i + 1;
    }
    proof {
        assert(q.take(i as int) =~= q);
    }
    r
}

/// Writes addresses one per line, as lists are saved and scan filters are handed over.
pub fn mac_lines(macs: &Vec<String>) -> (r: String)
    ensures
        r@ == joined(texts(macs@), "\n"@),
{
    join(macs, "\n")
}

/// A bonded device as it is shown to the user.
#[derive(Debug, PartialEq, Eq)]
pub struct DeviceRow {
    pub name: String,
    pub mac: String,
    pub armed: bool,
    pub state: String,
}

/// What a row says.
#[verifier::ext_equal]
pub struct RowView {
    pub name: Seq<char>,
    pub mac: Seq<char>,
    pub armed: bool,
    pub state: Seq<char>,
}

impl View for DeviceRow {
    type V = RowView;

    open spec fn view(&self) -> RowView {
        RowView {
            name: self.name@,
            mac: self.mac@,
            armed: self.armed,
            state: self.state@,
        }
    }
}

/// The row of the bonded device that `line` describes: the address up to the first tab, the name
/// behind it.
pub open spec fn row_of(state: State, line: Seq<char>) -> RowView {
    let k = before_first(line, '\t') as int;
    RowView {
        name: line.skip(k + 1),
        mac: line.take(k),
        armed: state.armed.contains(line.take(k)),
        state: state.condition(line.take(k)),
    }
}

/// The rows of all bonded devices, one for each line that has a tab.
pub open spec fn bonded_rows(state: State, bonded: Seq<char>) -> Seq<RowView> {
    lines(bonded).filter(|l: Seq<char>| l.contains('\t')).map_values(
        |l: Seq<char>| row_of(state, l),
    )
}

/// What the platform side has to do after an event.
#[derive(Debug, PartialEq, Eq)]
pub struct Orders {
    /// Connect to the device.
    pub connect: bool,
    /// Change the scan.
    pub scan: Option<Scan>,
    /// Ask for low-latency parameters; give the permit back where that fails.
    pub low_latency: bool,
    /// Send a keepalive.
    pub keepalive: bool,
}

impl State {
    /// The state after the list in `text` has been armed again. An empty list changes nothing.
    pub open spec fn after_restore_saved(self, text: Seq<char>, now: u64) -> State {
        if saved_list(text).len() == 0 {
            self
        } else {
            self.after_restore(saved_list(text), now)
        }
    }

    /// The state after the patrol has looked after one device: a blind attempt where one is due,
    /// then the low-latency parameters, then a keepalive.
    pub open spec fn after_patrol(
        self,
        mac: Seq<char>,
        system_connected: bool,
        now: u64,
    ) -> State {
        let ticked = self.after_tick(mac, system_connected, now);
        let asserted = ticked.after_low_latency_refresh(mac, now);
        if KEEPALIVE_ENABLED {
            asserted.after_keepalive(mac, now)
        } else {
            asserted
        }
    }

    /// The state after the event that led to `self` has been followed up: the scan it calls for
    /// has been ordered, and the low-latency parameters have been asserted where that is due.
    pub open spec fn followed_up(self, mac: Seq<char>, now: u64) -> State {
        self.after_scan_command(now).after_low_latency_refresh(mac, now)
    }

    /// The scan to be ordered: what the state calls for, unless that was ordered last.
    pub open spec fn scan_change(self, now: u64) -> Option<ScanView> {
        if self.last_scan == Some(self.desired_scan(now)) {
            None
        } else {
            Some(self.desired_scan(now))
        }
    }
}

/// What a change of scan says.
pub open spec fn change_view(scan: Option<Scan>) -> Option<ScanView> {
    match scan {
        Some(s) => Some(s@),
        None => None,
    }
}

fn is_connect(action: &Action) -> (r: bool)
    ensures
        r == (action@ == Verdict::Connect),
{
    match action {
        Action::Connect => true,
        Action::Skip(_) => false,
    }
}

impl Engine {
    /// Arms the devices of a saved list again; an empty list leaves no trace.
    pub fn restore_saved(&mut self, text: &str, now_ms: u64)
        requires
            old(self).wf(),
        ensures
            final(self).wf(),
            final(self)@ == old(self)@.after_restore_saved(text@, now_ms),
    {
        let macs = parse_saved(text);
        assert(texts(macs@).len() == macs.len());
        if macs.len() > 0 {
            self.restore(macs, now_ms);
        }
    }

    /// The armed devices as a list to be saved.
    pub fn saved_text(&self) -> (r: String)
        requires
            self.wf(),
        ensures
            r@ == joined(ascending(self@.armed), "\n"@),
    {
        mac_lines(&self.armed_macs())
    }

    /// The rows of the bonded devices. `bonded` names one device per line, its address and its
    /// name with a tab between them; other lines are passed over.
    pub fn rows(&self, bonded: &str) -> (r: Vec<DeviceRow>)
        requires
            self.wf(),
        ensures
            r@.map_values(|row: DeviceRow| row@) == bonded_rows(self@, bonded@),
    {
        let all = split_lines(bonded);
        let ghost q = lines(bonded@);
        let ghost pred = |l: Seq<char>| l.contains('\t');
        let ghost st = self@;
        let mut r: Vec<DeviceRow> = Vec::new();
        let mut i: usize = 0;
        proof {
            assert(q.take(0).filter(pred) =~= Seq::<Seq<char>>::empty()) by {
                reveal(Seq::filter);
            }
        }
        while i < all.len()
            invariant
                self.wf(),
                st == self@,
                i <= all.len(),
                q == texts(all@),
                pred == (|l: Seq<char>| l.contains('\t')),
                r@.map_values(|row: DeviceRow| row@) == q.take(i as int).filter(pred).map_values(
                    |l: Seq<char>| row_of(st, l),
                ),
            decreases all.len() - i,
        {
            let ghost before = r@;
            let ghost kept = q.take(i as int).filter(pred);
            proof {
                assert(q.take(i + 1) =~= q.take(i as int).push(q[i as int]));
                q.take(i as int).lemma_filter_push(q[i as int], pred);
            }
            match split_first(all[i].as_str(), '\t') {
                Some((mac, name)) => {
                    let row = self.row(mac.as_str());
                    r.push(DeviceRow { name, mac, armed: row.armed, state: row.state });
                    proof {
                        let made = r@.last();
                        assert(made@ =~= row_of(st, q[i as int]));
                        assert(r@.map_values(|row: DeviceRow| row@) =~= before.map_values(
                            |row: DeviceRow| row@,
                        ).push(made@));
                        assert(kept.push(q[i as int]).map_values(|l: Seq<char>| row_of(st, l))
                            =~= kept.map_values(|l: Seq<char>| row_of(st, l)).push(
                            row_of(st, q[i as int]),
                        ));
                    }
                },
                None => {},
            }
            i = i + 1;
        }
        proof {
            assert(q.take(i as int) =~= q);
        }
        r
    }

    /// The event log with the newest line first.
    pub fn events(&self, now_ms: u64) -> (r: Vec<String>)
        ensures
            texts(r@) == self@.shown_log(now_ms).reverse(),
    {
        let log = self.log(now_ms);
        let mut r: Vec<String> = Vec::new();
        let mut i: usize = log.len();
        while i > 0
            invariant
                i <= log.len(),
                r.len() == log.len() - i,
                forall|k: int| 0 <= k < r.len() ==> (#[trigger] r@[k])@ == log@[log.len() - 1 - k]@,
            decreases i,
        {
            i = i - 1;
            r.push(log[i].clone());
        }
        assert(texts(r@) =~= texts(log@).reverse());
        r
    }

    /// Looks after one armed device on the patrol.
    pub fn patrol(&mut self, mac: &str, system_connected: bool, now_ms: u64) -> (r: Orders)
        requires
            old(self).wf(),
        ensures
            final(self).wf(),
            r.connect == (old(self)@.tick_verdict(mac@, system_connected, now_ms)
                == Verdict::Connect),
            r.scan is None,
            r.low_latency == old(self)@.after_tick(
                mac@,
                system_connected,
                now_ms,
            ).low_latency_due(mac@, now_ms),
            r.keepalive == (KEEPALIVE_ENABLED && old(self)@.after_tick(
                mac@,
                system_connected,
                now_ms,
            ).keepalive_due(mac@, now_ms)),
            final(self)@ == old(self)@.after_patrol(mac@, system_connected, now_ms),
    {
        let action = self.on_tick(mac, system_connected, now_ms);
        let low_latency = self.refresh_low_latency_request(mac, now_ms);
        let keepalive = self.take_keepalive(mac, now_ms);
        Orders { connect: is_connect(&action), scan: None, low_latency, keepalive }
    }

    /// Takes in an advertisement of `mac` and follows it up.
    pub fn heard(&mut self, mac: &str, system_connected: bool, now_ms: u64) -> (r: Orders)
        requires
            old(self).wf(),
        ensures
            final(self).wf(),
            r.connect == (old(self)@.advertisement_verdict(mac@, system_connected, now_ms)
                == Verdict::Connect),
            change_view(r.scan) == old(self)@.after_advertisement(
                mac@,
                system_connected,
                now_ms,
            ).scan_change(now_ms),
            r.low_latency == old(self)@.after_advertisement(
                mac@,
                system_connected,
                now_ms,
            ).low_latency_due(mac@, now_ms),
            !r.keepalive,
            final(self)@ == old(self)@.after_advertisement(
                mac@,
                system_connected,
                now_ms,
            ).followed_up(mac@, now_ms),
    {
        let action = self.on_advertisement(mac, system_connected, now_ms);
        let scan = self.scan_if_changed(now_ms);
        let low_latency = self.refresh_low_latency_request(mac, now_ms);
        Orders { connect: is_connect(&action), scan, low_latency, keepalive: false }
    }

    /// Takes in a change of the link of `mac` and follows it up.
    pub fn link_changed(&mut self, mac: &str, connected: bool, now_ms: u64) -> (r: Orders)
        requires
            old(self).wf(),
        ensures
            final(self).wf(),
            !r.connect,
            change_view(r.scan) == old(self)@.after_connection_change(
                mac@,
                connected,
                now_ms,
            ).scan_change(now_ms),
            r.low_latency == old(self)@.after_connection_change(
                mac@,
                connected,
                now_ms,
            ).low_latency_due(mac@, now_ms),
            !r.keepalive,
            final(self)@ == old(self)@.after_connection_change(
                mac@,
                connected,
                now_ms,
            ).followed_up(mac@, now_ms),
    {
        self.on_connection_change(mac, connected, now_ms);
        let scan = self.scan_if_changed(now_ms);
        let low_latency = self.refresh_low_latency_request(mac, now_ms);
        Orders { connect: false, scan, low_latency, keepalive: false }
    }
}

} // verus!
