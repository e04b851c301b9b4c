//! Text helpers against what the standard library does.

use bt_rearm::roster::Roster;
use bt_rearm::text::{chars_of, decimal_text, join, order, split_first, split_lines, Order};

#[test]
fn lines_end_at_line_feeds_with_or_without_carriage_return() {
    for text in [
        "", "\n", "a", "a\n", "a\nb", "a\r\nb", "a\r\n", "a\r", "\r\n", "a\n\nb\n", "\r", "a\r\r\nb",
        "手柄\n鼠标\r\n", "\n\n",
    ] {
        let want: Vec<String> = text.lines().map(|l| l.to_string()).collect();
        assert_eq!(split_lines(text), want, "{text:?}");
    }
}

#[test]
fn decimal_numbers_have_no_leading_zeros() {
    for n in [0u64, 1, 9, 10, 19, 99, 100, 101, 1_000, 60_000, 1_234_567_890, u64::MAX] {
        assert_eq!(decimal_text(n), n.to_string());
    }
}

#[test]
fn the_order_is_that_of_sorted_strings() {
    let all = ["", "A", "AA", "AB", "B", "a", "手", "手柄", "鼠", "\u{10000}", "\u{ffff}"];
    for x in all {
        for y in all {
            let got = order(x, y);
            if x < y {
                assert!(got == Order::Before, "{x} {y}");
            } else if x == y {
                assert!(got == Order::Same, "{x} {y}");
            } else {
                assert!(got == Order::After, "{x} {y}");
            }
        }
    }
}

#[test]
fn joining_puts_the_separator_between_neighbours() {
    assert_eq!(join(&vec![], "、"), "");
    assert_eq!(join(&vec!["a".into()], "、"), "a");
    assert_eq!(join(&vec!["a".into(), "".into(), "b".into()], "、"), "a、、b");
}

#[test]
fn splitting_happens_at_the_first_separator() {
    assert_eq!(split_first("a\tb\tc", '\t'), Some(("a".into(), "b\tc".into())));
    assert_eq!(split_first("\t", '\t'), Some(("".into(), "".into())));
    assert_eq!(split_first("ab", '\t'), None);
    assert_eq!(split_first("", '\t'), None);
}

#[test]
fn characters_come_one_by_one() {
    assert_eq!(chars_of("手a"), vec!['手', 'a']);
}

#[test]
fn a_roster_is_a_sorted_set() {
    let mut r = Roster::new();
    for mac in ["c", "a", "b", "a", "c"] {
        r.insert(mac);
    }
    assert_eq!(r.to_vec(), ["a", "b", "c"]);
    assert_eq!(r.len(), 3);
    assert_eq!(r.at(1), "b");
    assert!(r.contains("b"));
    assert!(r.remove("b"));
    assert!(!r.remove("b"));
    assert!(!r.contains("b"));
    assert_eq!(r.to_vec(), ["a", "c"]);
}
