use rusty_sticker::benchmarks::{hash_u32, sort_largests_with_heap, HashMap32};
use rusty_sticker::eval::report_precision;
use rusty_sticker::logger::Level;

#[test]
fn precision_counts_hits_and_ceiling() {
    let yhat = vec![vec![1, 2], vec![5]];
    let y = vec![vec![1, 3], vec![6, 7]];
    let (hits, ideal, denom) = report_precision(&yhat, &y, 2);
    assert_eq!(hits, 1);
    assert_eq!(ideal, 4);
    assert_eq!(denom, 4);
}

#[test]
fn precision_short_prediction_lists_count_as_misses() {
    let yhat = vec![vec![8]];
    let y = vec![vec![8, 9, 10]];
    let (hits, ideal, denom) = report_precision(&yhat, &y, 3);
    assert_eq!(hits, 1);
    assert_eq!(ideal, 3);
    assert_eq!(denom, 3);
}

#[test]
fn precision_of_predictions_against_themselves_is_the_ceiling() {
    let p = vec![vec![1, 2, 3], vec![4], vec![]];
    for k in 1..5usize {
        let (hits, ideal, _) = report_precision(&p, &p, k);
        assert_eq!(hits, ideal);
    }
}

#[test]
fn level_parsing_accepts_both_cases() {
    assert_eq!(Level::parse_level("DEBUG").unwrap(), Level::DEBUG);
    assert_eq!(Level::parse_level("debug").unwrap(), Level::DEBUG);
    assert_eq!(Level::parse_level("INFO").unwrap(), Level::INFO);
    assert_eq!(Level::parse_level("info").unwrap(), Level::INFO);
    assert_eq!(Level::parse_level("WARN").unwrap(), Level::WARN);
    assert_eq!(Level::parse_level("warn").unwrap(), Level::WARN);
    assert_eq!(Level::parse_level("ERROR").unwrap(), Level::ERROR);
    assert_eq!(Level::parse_level("error").unwrap(), Level::ERROR);
    let err = Level::parse_level("verbose").unwrap_err();
    assert_eq!(err.0, "verbose");
}

#[test]
fn level_parses_through_the_str_trait() {
    let level: Level = "WARN".parse().unwrap();
    assert_eq!(level, Level::WARN);
    assert!("quiet".parse::<Level>().is_err());
}

#[test]
fn level_order_is_by_severity() {
    assert!(Level::ERROR.at_least(Level::WARN));
    assert!(Level::WARN.at_least(Level::WARN));
    assert!(!Level::DEBUG.at_least(Level::INFO));
    assert!(Level::DEBUG < Level::INFO && Level::INFO < Level::WARN && Level::WARN < Level::ERROR);
}

#[test]
fn hash_mixes_exact_values() {
    assert_eq!(hash_u32(0), 1364076727);
    assert_eq!(hash_u32(1), 821347078);
    assert_eq!(hash_u32(0xfffffffe), 2180083513);
    assert_eq!(hash_u32(0xffffffff), 3665349440);
}

#[test]
fn heap_selection_brings_largest_counts_forward() {
    let mut kcs = vec![(1, 5), (2, 1), (3, 9), (4, 3), (5, 7), (6, 2), (7, 8)];
    let mut sorted_input = kcs.clone();
    sort_largests_with_heap(&mut kcs, 3);
    assert_eq!(&kcs[..3], &[(3, 9), (7, 8), (5, 7)]);
    // nothing was lost or invented
    let mut permuted = kcs.clone();
    permuted.sort();
    sorted_input.sort();
    assert_eq!(permuted, sorted_input);
}

#[test]
fn counter_table_counts_keys() {
    let mut m = HashMap32::new(8);
    assert_eq!(m.inc(42), (42, 1));
    assert_eq!(m.inc(42), (42, 2));
    assert_eq!(m.inc(7), (7, 1));
    assert_eq!(m.inc(42), (42, 3));
    let total: u32 = m.0.iter().map(|&(_, c)| c).sum();
    assert_eq!(total, 4);
}

#[test]
fn counter_table_survives_collisions() {
    let mut m = HashMap32::new(2);
    let a = m.inc(1);
    let b = m.inc(2);
    assert_eq!(a, (1, 1));
    assert_eq!(b, (2, 1));
    assert_eq!(m.inc(1), (1, 2));
    assert_eq!(m.inc(2), (2, 2));
}

#[test]
fn string_hasher_folds_bytes() {
    let mut h = rusty_sticker::hash::Hasher::default();
    assert_eq!(h.finish(), 0);
    h.write(b"abc");
    // ((0*31 + 97)*31 + 98)*31 + 99
    assert_eq!(h.finish(), 96354);
    h.write(b"");
    assert_eq!(h.finish(), 96354);
}
