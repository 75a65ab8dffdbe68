use carpool::rows::{parse_cols, parse_content, parse_rows, ParseError};
use carpool::stat::{update_score, Stat};
use carpool::stats_map::StatMap;
use carpool::text::{bytes_eq, canon_token, field_tokens, split_bytes, trim_bytes};

fn b(s: &str) -> Vec<u8> {
    s.as_bytes().to_vec()
}

fn stats_of(content: &str) -> StatMap {
    parse_content(&b(content))
        .expect("enough lines")
        .expect("no driver error")
}

fn stat(m: &StatMap, name: &str) -> Stat {
    m.get_or_default(&b(name))
}

const HEADER: &str = "carpool log\n|----|----|----|----|\n";

#[test]
fn worked_example_two_rows() {
    let content = format!(
        "{}| 2023.10.10 | alice,bob | alice,bob | alice' |\n| 2023.10.11 | bob,carol | bob,carol | carol' |\n",
        HEADER
    );
    let m = stats_of(&content);
    let alice = stat(&m, "alice");
    assert_eq!(alice.going, 1);
    assert_eq!(alice.back, 1);
    assert_eq!(alice.drive, 1);
    assert_eq!(alice.score, 6);
    let bob = stat(&m, "bob");
    assert_eq!(bob.going, 2);
    assert_eq!(bob.back, 2);
    assert_eq!(bob.drive, 0);
    assert_eq!(bob.score, -12);
    let carol = stat(&m, "carol");
    assert_eq!(carol.going, 1);
    assert_eq!(carol.back, 1);
    assert_eq!(carol.drive, 1);
    assert_eq!(carol.score, 6);
}

#[test]
fn possessive_stripping() {
    assert_eq!(canon_token(&b("smith's")), b("smith"));
    assert_eq!(canon_token(&b("smith")), b("smith"));
    assert_eq!(canon_token(&b("alice'car")), b("alice"));
    assert_eq!(canon_token(&b("'car")), b(""));
}

#[test]
fn possessive_and_plain_driver_same_family() {
    let content = format!(
        "{}| d1 | smith | | smith's |\n| d2 | smith | | smith |\n",
        HEADER
    );
    let m = stats_of(&content);
    let smith = stat(&m, "smith");
    assert_eq!(smith.drive, 2);
    assert_eq!(smith.going, 2);
}

#[test]
fn column_filter_skips_short_rows() {
    let content = format!(
        "{}just some prose\n| only | three |\n| d | alice | alice | alice' |\n",
        HEADER
    );
    let m = stats_of(&content);
    assert_eq!(m.len(), 1);
    let alice = stat(&m, "alice");
    assert_eq!(alice.going, 1);
    assert_eq!(alice.back, 1);
    assert_eq!(alice.drive, 1);
    assert_eq!(alice.score, 0);
}

#[test]
fn multi_driver_aborts() {
    let rows = vec![
        b("title"),
        b("|----|"),
        b("| d | alice | alice | alice',bob' |"),
    ];
    let r = parse_rows(&rows);
    assert_eq!(r.err(), Some(ParseError::MultipleDrivers));
}

#[test]
fn multi_driver_error_through_content() {
    let content = format!("{}| d | alice,bob | | alice',bob' |\n", HEADER);
    let r = parse_content(&b(&content)).expect("enough lines");
    assert!(matches!(r, Err(ParseError::MultipleDrivers)));
}

#[test]
fn same_family_driver_tokens_accepted() {
    let content = format!("{}| d | alice | | alice',alice's-van |\n", HEADER);
    let m = stats_of(&content);
    let alice = stat(&m, "alice");
    assert_eq!(alice.drive, 2);
}

#[test]
fn empty_going_field_guard() {
    let content = format!("{}| d | | bob | bob' |\n", HEADER);
    let m = stats_of(&content);
    let bob = stat(&m, "bob");
    assert_eq!(bob.going, 0);
    assert_eq!(bob.back, 1);
    assert_eq!(bob.drive, 1);
    assert_eq!(bob.score, 0);
    assert_eq!(m.len(), 1);
}

#[test]
fn empty_driver_field_no_credit() {
    let content = format!("{}| d | alice,bob | | |\n", HEADER);
    let m = stats_of(&content);
    let alice = stat(&m, "alice");
    let bob = stat(&m, "bob");
    assert_eq!(alice.going, 1);
    assert_eq!(alice.drive, 0);
    assert_eq!(alice.score, -3);
    assert_eq!(bob.score, -3);
    assert_eq!(m.len(), 2);
}

#[test]
fn group_of_three_score_rule() {
    let content = format!("{}| d | alice,bob,carol | | alice' |\n", HEADER);
    let m = stats_of(&content);
    assert_eq!(stat(&m, "alice").score, 4);
    assert_eq!(stat(&m, "bob").score, -2);
    assert_eq!(stat(&m, "carol").score, -2);
}

#[test]
fn leg_scores_sum_to_zero_when_group_divides_constant() {
    let content = format!("{}| d | alice,bob | | alice' |\n", HEADER);
    let m = stats_of(&content);
    let total = stat(&m, "alice").score + stat(&m, "bob").score;
    assert_eq!(total, 0);
    let content3 = format!("{}| d | a,bb,c | | bb' |\n", HEADER);
    let m3 = stats_of(&content3);
    let total3 = stat(&m3, "a").score + stat(&m3, "bb").score + stat(&m3, "c").score;
    assert_eq!(total3, 0);
}

#[test]
fn counts_never_decrease_with_more_rows() {
    let one = format!("{}| d | alice | alice | alice' |\n", HEADER);
    let two = format!("{}| d | alice | alice | alice' |\n| d | alice,bob | | bob' |\n", HEADER);
    let m1 = stats_of(&one);
    let m2 = stats_of(&two);
    let a1 = stat(&m1, "alice");
    let a2 = stat(&m2, "alice");
    assert!(a2.going >= a1.going);
    assert!(a2.back >= a1.back);
    assert!(a2.drive >= a1.drive);
}

#[test]
fn trailing_comma_counts_empty_family() {
    let content = format!("{}| d | alice, | | alice' |\n", HEADER);
    let m = stats_of(&content);
    assert_eq!(m.len(), 2);
    assert_eq!(stat(&m, "alice").going, 1);
    assert_eq!(stat(&m, "alice").score, 3);
    let empty = stat(&m, "");
    assert_eq!(empty.going, 1);
    assert_eq!(empty.score, -3);
}

#[test]
fn short_content_gives_no_report() {
    assert!(parse_content(&b("a single line with no break")).is_none());
    assert!(parse_content(&b("")).is_none());
    assert!(parse_content(&b("two\nlines")).is_some());
}

#[test]
fn update_score_driver_credit() {
    let mut s = Stat::default();
    update_score(&mut s, &b("alice"), &b("alice"), 6, 2);
    assert_eq!(s.score, 3);
    assert_eq!(s.going, 0);
    let mut t = Stat::default();
    update_score(&mut t, &b("alice"), &b("alice"), 6, 3);
    assert_eq!(t.score, 4);
}

#[test]
fn update_score_passenger_debit() {
    let mut s = Stat::default();
    update_score(&mut s, &b("bob"), &b("alice"), 6, 2);
    assert_eq!(s.score, -3);
    update_score(&mut s, &b("bob"), &b("alice"), 6, 3);
    assert_eq!(s.score, -5);
}

#[test]
fn parse_cols_updates_map_directly() {
    let cols = vec![b(""), b("2023.10.10"), b(" alice,bob "), b(" alice "), b(" alice' ")];
    let mut m = StatMap::new();
    let r = parse_cols(&cols, &mut m);
    assert!(r.is_ok());
    assert_eq!(stat(&m, "alice").going, 1);
    assert_eq!(stat(&m, "alice").back, 1);
    assert_eq!(stat(&m, "alice").drive, 1);
    assert_eq!(stat(&m, "alice").score, 3 + 0);
    assert_eq!(stat(&m, "bob").score, -3);
}

#[test]
fn parse_cols_rejects_two_driver_families_unchanged() {
    let cols = vec![b(""), b("d"), b("alice"), b(""), b("alice',bob'")];
    let mut m = StatMap::new();
    let r = parse_cols(&cols, &mut m);
    assert_eq!(r.err(), Some(ParseError::MultipleDrivers));
    assert_eq!(m.len(), 0);
}

#[test]
fn stat_map_get_set_roundtrip() {
    let mut m = StatMap::new();
    assert_eq!(m.len(), 0);
    let s = Stat { going: 1, back: 2, drive: 3, score: -4 };
    m.set(&b("x"), s);
    assert_eq!(m.len(), 1);
    assert_eq!(m.get_or_default(&b("x")), s);
    assert_eq!(m.get_or_default(&b("y")), Stat::default());
    m.set(&b("x"), Stat::default());
    assert_eq!(m.len(), 1);
    assert_eq!(m.get_or_default(&b("x")), Stat::default());
}

#[test]
fn stat_map_iteration_order() {
    let mut m = StatMap::new();
    m.set(&b("a"), Stat { going: 1, back: 0, drive: 0, score: 0 });
    m.set(&b("b"), Stat { going: 2, back: 0, drive: 0, score: 0 });
    let mut seen = Vec::new();
    for i in 0..m.len() {
        seen.push((m.key_at(i).clone(), m.stat_at(i).going));
    }
    assert_eq!(seen, vec![(b("a"), 1), (b("b"), 2)]);
}

#[test]
fn text_helpers() {
    assert_eq!(trim_bytes(&b("  a b \t")), b("a b"));
    assert_eq!(trim_bytes(&b("")), b(""));
    assert_eq!(trim_bytes(&b("   ")), b(""));
    let parts = split_bytes(&b("a|b||c"), b'|');
    assert_eq!(parts, vec![b("a"), b("b"), b(""), b("c")]);
    assert_eq!(split_bytes(&b(""), b'|'), vec![b("")]);
    assert!(bytes_eq(&b("abc"), &b("abc")));
    assert!(!bytes_eq(&b("abc"), &b("abd")));
    assert_eq!(field_tokens(&b("  ")), Vec::<Vec<u8>>::new());
    assert_eq!(field_tokens(&b(" a , b ")), vec![b("a "), b(" b")]);
}

#[test]
fn record_print_width_values() {
    let w = carpool::report::get_record_print_width();
    assert_eq!(w.0, 10);
    assert_eq!(w.1, 18);
    assert_eq!(w.2, 18);
    assert_eq!(w.3, 18);
}
