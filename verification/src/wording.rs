//! What is written for people and for storage, and how it is read back.

use vstd::prelude::*;

use crate::bridge::{
    bonded_rows, mac_lines, parse_saved, row_of, saved_list, DeviceRow, RowView,
};
use crate::engine::{ago, Engine};
use crate::model::{age, noted, shown, State};
use crate::roster::{ascending, lemma_ascending_finite, strictly_ascending};
use crate::text::{
    before_first, decimal, decimal_text, join, joined, lemma_before_first, lemma_before_first_at,
    lemma_precedes_asymmetric, lines, order, precedes, split_first, split_lines, texts, without_cr, Order,
};

verus! {

// ---- order ----
/// `a` and `b` agree on their first `k` characters; there `a` ends and `b` goes on, or `a` has the
/// smaller character.
pub open spec fn parts_at(a: Seq<char>, b: Seq<char>, k: int) -> bool {
    &&& 0 <= k <= a.len() && k < b.len()
    &&& a.take(k) =~= b.take(k)
    &&& k < a.len() ==> a[k] < b[k]
}

/// Texts are ordered by the first character in which they differ; a text comes before every
/// continuation of it.
pub proof fn texts_are_ordered_like_words(a: &str, b: &str, r: Order)
    requires
        call_ensures(order, (a, b), r),
    ensures
        r == Order::Same <==> a@ == b@,
        r == Order::Before <==> exists|k: int| parts_at(a@, b@, k),
        r == Order::After <==> exists|k: int| parts_at(b@, a@, k),
        precedes(a@, b@) <==> exists|k: int| parts_at(a@, b@, k),
{
    lemma_precedes_parts(a@, b@);
    lemma_precedes_parts(b@, a@);
}

pub(crate) proof fn lemma_precedes_parts(a: Seq<char>, b: Seq<char>)
    ensures
        precedes(a, b) <==> exists|k: int| parts_at(a, b, k),
    decreases a.len(),
{
    if b.len() == 0 {
    } else if a.len() == 0 {
        assert(parts_at(a, b, 0));
    } else if a[0] != b[0] {
        if a[0] < b[0] {
            assert(parts_at(a, b, 0));
        }
        if exists|k: int| parts_at(a, b, k) {
            let k = choose|k: int| parts_at(a, b, k);
            if k > 0 {
                assert(a.take(k)[0] == b.take(k)[0]);
            }
        }
    } else {
        let x = a.drop_first();
        let y = b.drop_first();
        lemma_precedes_parts(x, y);
        if exists|k: int| parts_at(x, y, k) {
            let k = choose|k: int| parts_at(x, y, k);
            let p = a.take(k + 1);
            let q = b.take(k + 1);
            assert forall|i: int| 0 <= i < p.len() implies p[i] == q[i] by {
                if i > 0 {
                    assert(x.take(k)[i - 1] == y.take(k)[i - 1]);
                }
            }
            assert(p =~= q);
            assert(parts_at(a, b, k + 1));
        }
        if exists|k: int| parts_at(a, b, k) {
            let k = choose|k: int| parts_at(a, b, k);
            assert(k > 0);
            let p = x.take(k - 1);
            let q = y.take(k - 1);
            assert forall|i: int| 0 <= i < p.len() implies p[i] == q[i] by {
                assert(a.take(k)[i + 1] == b.take(k)[i + 1]);
            }
            assert(p =~= q);
            assert(parts_at(x, y, k - 1));
        }
    }
}

/// In an ascending list every text comes before all later ones, and so none occurs twice.
pub proof fn ascending_lists_are_in_word_order(q: Seq<Seq<char>>, i: int, j: int)
    requires
        strictly_ascending(q),
        0 <= i < j < q.len(),
    ensures
        exists|k: int| parts_at(q[i], q[j], k),
        q[i] != q[j],
{
    lemma_precedes_parts(q[i], q[j]);
    lemma_precedes_asymmetric(q[i], q[j]);
}

// ---- numbers ----
/// The number that a row of digits stands for.
pub open spec fn value(digits: Seq<char>) -> int
    decreases digits.len(),
{
    if digits.len() == 0 {
        0
    } else {
        10 * value(digits.drop_last()) + (digits.last() as int - '0' as int)
    }
}

/// A number is written in digits, reads back as itself, and has no leading zero.
pub proof fn numbers_read_back(n: u64, r: String)
    requires
        call_ensures(decimal_text, (n,), r),
    ensures
        value(r@) == n,
        r@.len() > 0,
        r@[0] == '0' ==> n == 0 && r@.len() == 1,
        forall|i: int| 0 <= i < r@.len() ==> '0' <= #[trigger] r@[i] <= '9',
        r@ == decimal(n as nat),
{
    lemma_decimal(n as nat);
}

pub(crate) proof fn lemma_decimal(n: nat)
    ensures
        value(decimal(n)) == n,
        decimal(n).len() > 0,
        decimal(n)[0] == '0' ==> n == 0 && decimal(n).len() == 1,
        forall|i: int| 0 <= i < decimal(n).len() ==> '0' <= #[trigger] decimal(n)[i] <= '9',
    decreases n,
{
    reveal_with_fuel(value, 2);
    if n < 10 {
        assert(decimal(n).drop_last().len() == 0);
    } else {
        lemma_decimal(n / 10);
        assert(decimal(n).drop_last() =~= decimal(n / 10));
    }
}

// ---- lists in one line ----
/// What a list of strings says is what its strings say, one by one.
pub proof fn lists_say_what_their_strings_say(v: Seq<String>, i: int)
    ensures
        texts(v).len() == v.len(),
        0 <= i < v.len() ==> texts(v)[i] == v[i]@,
{
}

/// Joining puts the separator between neighbours and nowhere else: nothing gives nothing, one part
/// stands for itself, and two lists are joined by joining each.
pub proof fn joining_separates_neighbours(
    parts: &Vec<String>,
    sep: &str,
    r: String,
    front: Seq<Seq<char>>,
    back: Seq<Seq<char>>,
)
    requires
        call_ensures(join, (parts, sep), r),
        texts(parts@) == front + back,
    ensures
        r@ == joined(texts(parts@), sep@),
        parts.len() == 0 ==> r@.len() == 0,
        parts.len() == 1 ==> r@ == parts@[0]@,
        front.len() > 0 && back.len() > 0 ==> r@ == joined(front, sep@) + sep@ + joined(back, sep@),
{
    if front.len() > 0 && back.len() > 0 {
        lemma_joined_add(front, back, sep@);
    }
}

pub(crate) proof fn lemma_joined_add(front: Seq<Seq<char>>, back: Seq<Seq<char>>, sep: Seq<char>)
    requires
        front.len() > 0,
        back.len() > 0,
    ensures
        joined(front + back, sep) == joined(front, sep) + sep + joined(back, sep),
    decreases back.len(),
{
    let all = front + back;
    assert(all.last() == back.last());
    if back.len() == 1 {
        assert(all.drop_last() =~= front);
    } else {
        lemma_joined_add(front, back.drop_last(), sep);
        assert(all.drop_last() =~= front + back.drop_last());
        assert(joined(all, sep) =~= joined(front, sep) + sep + joined(back, sep));
    }
}

// ---- ages ----
/// A time span is told in the greatest of hours, minutes and seconds that fits into it, rounded
/// down; less than a second is now. `n` is the number of whole units.
pub proof fn ages_are_rounded_down(delta: u64, n: nat, r: String)
    requires
        call_ensures(ago, (delta,), r),
    ensures
        delta < 1_000 ==> r@ == "刚刚"@,
        1_000 <= delta < 60_000 && n * 1_000 <= delta < (n + 1) * 1_000 ==> r@ == decimal(n)
            + "秒前"@,
        60_000 <= delta < 3_600_000 && n * 60_000 <= delta < (n + 1) * 60_000 ==> r@ == decimal(n)
            + "分前"@,
        3_600_000 <= delta && n * 3_600_000 <= delta < (n + 1) * 3_600_000 ==> r@ == decimal(n)
            + "小时前"@,
        r@ == age(delta as nat),
{
}

/// The log is told line by line, oldest first. Each line stands behind the age of its latest
/// occurrence, and before its count where it occurred more than once in a row.
pub proof fn the_log_is_told_line_by_line(e: &Engine, now: u64, r: Vec<String>, i: int)
    requires
        call_ensures(Engine::log, (e, now), r),
        0 <= i < e@.log.len(),
    ensures
        r.len() == e@.log.len(),
        ({
            let entry = e@.log[i];
            let passed: nat = if entry.at <= now {
                (now - entry.at) as nat
            } else {
                0
            };
            let told = age(passed) + "  "@ + entry.line;
            &&& entry.repeat <= 1 ==> r@[i]@ == told
            &&& entry.repeat > 1 ==> r@[i]@ == told + " ×"@ + decimal(entry.repeat as nat)
        }),
{
    assert(texts(r@).len() == e@.log.len());
    assert(texts(r@)[i] == shown(e@.log[i], now));
}

/// An empty log has nothing to tell.
pub proof fn an_empty_log_is_silent(e: &Engine, now: u64, r: Vec<String>)
    requires
        call_ensures(Engine::log, (e, now), r) || call_ensures(Engine::events, (e, now), r),
        e@.log.len() == 0,
    ensures
        r.len() == 0,
{
    assert(texts(r@).len() == 0);
}

/// The events are the log with the newest line first.
pub proof fn events_come_newest_first(e: &Engine, now: u64, r: Vec<String>, log: Vec<String>, i: int)
    requires
        call_ensures(Engine::events, (e, now), r),
        call_ensures(Engine::log, (e, now), log),
        0 <= i < log.len(),
    ensures
        r.len() == log.len(),
        r@[i]@ == log@[log.len() - 1 - i]@,
{
    assert(texts(r@).len() == texts(log@).len());
    assert(texts(r@)[i] == texts(log@)[log.len() - 1 - i]);
}

// ---- lines ----
/// Text that goes through `line`, a line feed and `rest` has the lines of `rest` behind `line`,
/// which loses the carriage return at its end. Text without a line feed is one line as it stands,
/// and no text is no line.
pub proof fn lines_end_at_line_feeds(s: &str, r: Vec<String>, line: Seq<char>, rest: Seq<char>)
    requires
        call_ensures(split_lines, (s,), r),
        !line.contains('\n'),
    ensures
        s@.len() == 0 ==> r.len() == 0,
        s@.len() > 0 && !s@.contains('\n') ==> texts(r@) == seq![s@],
        s@ == line.push('\n') + rest && (line.len() == 0 || line.last() != '\r') ==> texts(r@)
            == seq![line] + lines(rest),
        s@ == line.push('\n') + rest && line.len() > 0 && line.last() == '\r' ==> texts(r@)
            == seq![line.drop_last()] + lines(rest),
        texts(r@) == lines(s@),
{
    assert(texts(r@).len() == r.len());
    lemma_before_first(s@, '\n');
    if s@ == line.push('\n') + rest {
        lemma_lines_step(line, rest);
    }
}

pub(crate) proof fn lemma_lines_step(line: Seq<char>, rest: Seq<char>)
    requires
        !line.contains('\n'),
    ensures
        lines(line.push('\n') + rest) == seq![without_cr(line)] + lines(rest),
{
    let s = line.push('\n') + rest;
    let k = line.len() as int;
    assert forall|i: int| 0 <= i < k implies s[i] != '\n' by {
        assert(line.contains(line[i]));
    }
    assert(s[k] == '\n');
    lemma_before_first_at(s, '\n', k);
    assert(s.take(k) =~= line);
    assert(s.skip(k + 1) =~= rest);
}

/// A text is split at the first of the given characters: what comes before it holds none, and the
/// two parts make up the text again. Without one it is not split.
pub proof fn text_splits_at_the_first(s: &str, c: char, r: Option<(String, String)>)
    requires
        call_ensures(split_first, (s, c), r),
    ensures
        match r {
            Some((a, b)) => !a@.contains(c) && a@.push(c) + b@ == s@,
            None => !s@.contains(c),
        },
{
    lemma_before_first(s@, c);
    if r is Some {
        let (a, b) = r->0;
        let k = before_first(s@, c) as int;
        assert(a@.push(c) + b@ =~= s@);
        assert forall|i: int| 0 <= i < a@.len() implies a@[i] != c by {
            assert(a@[i] == s@[i]);
        }
    }
}

// ---- saved lists ----
/// A saved list holds its non-empty lines in their order: the line at its front, without the
/// carriage return at its end and unless it is empty, goes before what follows.
pub proof fn saved_lists_hold_the_lines(text: &str, r: Vec<String>, line: Seq<char>, rest: Seq<char>)
    requires
        call_ensures(parse_saved, (text,), r),
        !line.contains('\n'),
        line.len() == 0 || line.last() != '\r',
    ensures
        text@.len() == 0 ==> r.len() == 0,
        text@.len() > 0 && !text@.contains('\n') ==> texts(r@) == seq![text@],
        text@ == line.push('\n') + rest || text@ == line.push('\r').push('\n') + rest ==> texts(r@)
            == if line.len() == 0 {
            saved_list(rest)
        } else {
            seq![line] + saved_list(rest)
        },
        texts(r@) == saved_list(text@),
{
    assert(texts(r@).len() == r.len());
    lemma_saved_alone(text@);
    if text@ == line.push('\n') + rest {
        lemma_saved_step(line, rest);
    }
    if text@ == line.push('\r').push('\n') + rest {
        let cr = line.push('\r');
        assert forall|i: int| 0 <= i < cr.len() implies cr[i] != '\n' by {
            if i < line.len() {
                assert(line.contains(line[i]));
            }
        }
        lemma_saved_step(cr, rest);
        assert(cr.drop_last() =~= line);
    }
}

proof fn lemma_lines_alone(s: Seq<char>)
    ensures
        s.len() == 0 ==> lines(s) == Seq::<Seq<char>>::empty(),
        s.len() > 0 && !s.contains('\n') ==> lines(s) == seq![s] + Seq::<Seq<char>>::empty(),
{
    lemma_before_first(s, '\n');
    assert(seq![s] + Seq::<Seq<char>>::empty() =~= seq![s]);
}

proof fn lemma_filter_none(pred: spec_fn(Seq<char>) -> bool)
    ensures
        Seq::<Seq<char>>::empty().filter(pred) == Seq::<Seq<char>>::empty(),
{
    reveal(Seq::filter);
    assert(Seq::<Seq<char>>::empty().filter(pred) =~= Seq::<Seq<char>>::empty());
}

proof fn lemma_saved_alone(s: Seq<char>)
    ensures
        s.len() == 0 ==> saved_list(s).len() == 0,
        s.len() > 0 && !s.contains('\n') ==> saved_list(s) == seq![s],
{
    let pred = |l: Seq<char>| l.len() > 0;
    let none = Seq::<Seq<char>>::empty();
    lemma_lines_alone(s);
    lemma_filter_none(pred);
    lemma_filter_front(s, none, pred);
    assert(seq![s] + none =~= seq![s]);
}

proof fn lemma_saved_step(line: Seq<char>, rest: Seq<char>)
    requires
        !line.contains('\n'),
    ensures
        saved_list(line.push('\n') + rest) == (if without_cr(line).len() > 0 {
            seq![without_cr(line)] + saved_list(rest)
        } else {
            saved_list(rest)
        }),
{
    lemma_lines_step(line, rest);
    lemma_filter_front(without_cr(line), lines(rest), |l: Seq<char>| l.len() > 0);
}

proof fn lemma_filter_front(x: Seq<char>, q: Seq<Seq<char>>, pred: spec_fn(Seq<char>) -> bool)
    ensures
        (seq![x] + q).filter(pred) == (if pred(x) {
            seq![x] + q.filter(pred)
        } else {
            q.filter(pred)
        }),
    decreases q.len(),
{
    reveal(Seq::filter);
    let all = seq![x] + q;
    if q.len() == 0 {
        assert(all.drop_last() =~= Seq::<Seq<char>>::empty());
        assert(all.last() == x);
        assert(q.filter(pred) =~= Seq::<Seq<char>>::empty());
        assert(all.drop_last().filter(pred) =~= Seq::<Seq<char>>::empty());
        assert(all.filter(pred) =~= if pred(x) {
            seq![x] + q.filter(pred)
        } else {
            q.filter(pred)
        });
    } else {
        assert(all.drop_last() =~= seq![x] + q.drop_last());
        assert(all.last() == q.last());
        lemma_filter_front(x, q.drop_last(), pred);
        assert(all.filter(pred) =~= if pred(x) {
            seq![x] + q.filter(pred)
        } else {
            q.filter(pred)
        });
    }
}

/// The list that is saved names the armed devices, each on a line of its own, in ascending order.
/// `names` is the list of them.
pub proof fn the_armed_are_saved(e: &Engine, r: String) -> (names: Seq<Seq<char>>)
    requires
        e.wf(),
        call_ensures(Engine::saved_text, (e,), r),
    ensures
        strictly_ascending(names),
        forall|m: Seq<char>| #[trigger] names.contains(m) <==> e@.armed.contains(m),
        r@ == joined(names, seq!['\n']),
{
    e.lemma_valid();
    lemma_ascending_finite(e@.armed);
    reveal_strlit("\n");
    assert("\n"@ =~= seq!['\n']);
    let names = ascending(e@.armed);
    assert forall|m: Seq<char>| #[trigger] names.contains(m) <==> e@.armed.contains(m) by {
        assert(names.to_set().contains(m) <==> e@.armed.contains(m));
    }
    names
}

/// Addresses are handed over one per line.
pub proof fn addresses_stand_on_lines(macs: &Vec<String>, r: String)
    requires
        call_ensures(mac_lines, (macs,), r),
    ensures
        r@ == joined(texts(macs@), seq!['\n']),
{
    reveal_strlit("\n");
    assert("\n"@ =~= seq!['\n']);
}

/// Restoring a saved list arms the devices that it names and starts their wait; the number of armed
/// devices is noted. A list without names leaves no trace. The rest stays.
pub proof fn restoring_a_saved_list_arms_it(
    e: &mut Engine,
    text: &str,
    now: u64,
    names: Vec<String>,
    m: Seq<char>,
)
    requires
        call_ensures(Engine::restore_saved, (e, text, now), ()),
        call_ensures(parse_saved, (text,), names),
    ensures
        ({
            let a = old(e)@;
            let z = final(e)@;
            let named = texts(names@).contains(m);
            &&& z.armed.contains(m) <==> a.armed.contains(m) || named
            &&& z.waiting_since.get(m) == (if named {
                Some(now)
            } else {
                a.waiting_since.get(m)
            })
            &&& names.len() == 0 ==> z == a
            &&& names.len() > 0 ==> z.log == noted(
                a.log,
                now,
                "恢复布防 "@ + decimal(z.armed.len()) + " 台"@,
            )
            &&& z == (State {
                armed: z.armed,
                waiting_since: z.waiting_since,
                log: z.log,
                ..a
            })
        }),
{
    let q = texts(names@);
    assert(q.len() == names.len());
    assert(q.to_set().contains(m) <==> q.contains(m));
}

// ---- rows ----
/// The rows follow the lines of the bonded devices: one that holds a tab gives a row with the
/// address before the first tab and the name behind it, any other gives none. A carriage return
/// before a line feed belongs to the line ending, not to the name.
pub proof fn rows_follow_the_lines(
    e: &Engine,
    bonded: &str,
    r: Vec<DeviceRow>,
    mac: Seq<char>,
    name: Seq<char>,
    line: Seq<char>,
    rest: Seq<char>,
)
    requires
        call_ensures(Engine::rows, (e, bonded), r),
        !mac.contains('\t') && !mac.contains('\n') && !name.contains('\n'),
        !line.contains('\n') && !line.contains('\t'),
    ensures
        ({
            let q = r@.map_values(|row: DeviceRow| row@);
            let row = RowView {
                name,
                mac,
                armed: e@.armed.contains(mac),
                state: e@.condition(mac),
            };
            &&& q == bonded_rows(e@, bonded@)
            &&& bonded@.len() == 0 ==> q.len() == 0
            &&& bonded@ == line ==> q.len() == 0
            &&& bonded@ == mac.push('\t') + name ==> q == seq![row]
            &&& bonded@ == (mac.push('\t') + name).push('\n') + rest && (name.len() == 0
                || name.last() != '\r') ==> q == seq![row] + bonded_rows(e@, rest)
            &&& bonded@ == (mac.push('\t') + name).push('\r').push('\n') + rest ==> q == seq![row]
                + bonded_rows(e@, rest)
            &&& bonded@ == line.push('\n') + rest ==> q == bonded_rows(e@, rest)
        }),
{
    let s = e@;
    let full = mac.push('\t') + name;
    let cr = full.push('\r');
    lemma_row_of(s, mac, name);
    lemma_rows_alone(s, line);
    lemma_rows_alone(s, full);
    if bonded@ == full.push('\n') + rest && (name.len() == 0 || name.last() != '\r') {
        assert(full.last() == if name.len() == 0 {
            '\t'
        } else {
            name.last()
        });
        lemma_rows_step(s, full, rest);
    }
    if bonded@ == cr.push('\n') + rest {
        assert(!cr.contains('\n')) by {
            if cr.contains('\n') {
                let i = cr.index_of('\n');
                assert(full[i] == '\n');
            }
        }
        assert(cr.drop_last() =~= full);
        lemma_rows_step(s, cr, rest);
    }
    if bonded@ == line.push('\n') + rest {
        assert(!without_cr(line).contains('\t')) by {
            if without_cr(line).contains('\t') {
                let i = without_cr(line).index_of('\t');
                assert(line[i] == '\t');
            }
        }
        lemma_rows_step(s, line, rest);
    }
}

/// The row of an address, a tab and a name.
proof fn lemma_row_of(s: State, mac: Seq<char>, name: Seq<char>)
    requires
        !mac.contains('\t') && !mac.contains('\n') && !name.contains('\n'),
    ensures
        ({
            let full = mac.push('\t') + name;
            &&& full.contains('\t') && !full.contains('\n')
            &&& row_of(s, full) == (RowView {
                name,
                mac,
                armed: s.armed.contains(mac),
                state: s.condition(mac),
            })
        }),
{
    let full = mac.push('\t') + name;
    let k = mac.len() as int;
    assert forall|i: int| 0 <= i < full.len() implies full[i] != '\n' && (i < k ==> full[i]
        != '\t') by {
        if i < k {
            assert(mac.contains(full[i]));
        } else if i > k {
            assert(full[i] == name[i - k - 1]);
            assert(name.contains(full[i]));
        }
    }
    assert(full[k] == '\t');
    lemma_before_first_at(full, '\t', k);
    assert(full.take(k) =~= mac);
    assert(full.skip(k + 1) =~= name);
}

proof fn lemma_rows_alone(s: State, text: Seq<char>)
    requires
        !text.contains('\n'),
    ensures
        bonded_rows(s, text) == (if text.contains('\t') {
            seq![row_of(s, text)]
        } else {
            Seq::<RowView>::empty()
        }),
        bonded_rows(s, Seq::<char>::empty()).len() == 0,
{
    let pred = |l: Seq<char>| l.contains('\t');
    let none = Seq::<Seq<char>>::empty();
    lemma_filter_none(pred);
    lemma_lines_alone(text);
    lemma_lines_alone(Seq::<char>::empty());
    if text.len() > 0 {
        lemma_filter_front(text, none, pred);
    }
    assert(bonded_rows(s, text) =~= if text.contains('\t') {
        seq![row_of(s, text)]
    } else {
        Seq::<RowView>::empty()
    });
}

proof fn lemma_rows_step(s: State, line: Seq<char>, rest: Seq<char>)
    requires
        !line.contains('\n'),
    ensures
        bonded_rows(s, line.push('\n') + rest) == (if without_cr(line).contains('\t') {
            seq![row_of(s, without_cr(line))] + bonded_rows(s, rest)
        } else {
            bonded_rows(s, rest)
        }),
{
    lemma_lines_step(line, rest);
    lemma_filter_front(without_cr(line), lines(rest), |l: Seq<char>| l.contains('\t'));
    assert(bonded_rows(s, line.push('\n') + rest) =~= if without_cr(line).contains('\t') {
        seq![row_of(s, without_cr(line))] + bonded_rows(s, rest)
    } else {
        bonded_rows(s, rest)
    });
}

} // verus!
