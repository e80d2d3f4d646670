use advent::seats::{Range, RangePair};

const SAMPLE: [&str; 6] = ["2-4,6-8", "2-3,4-5", "5-7,7-9", "2-8,3-7", "6-6,4-6", "2-6,4-8"];

#[test]
fn range_parse_reads_two_numbers() {
    assert_eq!(Range::parse("2-4"), Some(Range(2, 4)));
    assert_eq!(Range::parse("10-200"), Some(Range(10, 200)));
    assert_eq!(Range::parse("+1-2"), Some(Range(1, 2)));
    assert_eq!(Range::parse("1-2-3"), Some(Range(1, 2)));
    assert_eq!(Range::parse("1-2-x"), Some(Range(1, 2)));
}

#[test]
fn range_parse_refuses_what_is_no_range() {
    assert_eq!(Range::parse("24"), None);
    assert_eq!(Range::parse("2-"), None);
    assert_eq!(Range::parse("-4"), None);
    assert_eq!(Range::parse("a-4"), None);
    assert_eq!(Range::parse("2 - 4"), None);
    assert_eq!(Range::parse(""), None);
    assert_eq!(Range::parse("99999999999999999999999-4"), None);
}

#[test]
fn pair_parse_reads_two_ranges() {
    assert_eq!(RangePair::parse("2-4,6-8"), Some(RangePair(Range(2, 4), Range(6, 8))));
    assert_eq!(RangePair::parse("2-4"), None);
    assert_eq!(RangePair::parse("2-4,"), None);
    assert_eq!(RangePair::parse("2-4,6"), None);
    assert_eq!(RangePair::parse("2-4,6-8,junk"), Some(RangePair(Range(2, 4), Range(6, 8))));
}

#[test]
fn contains_means_every_seat() {
    assert!(Range(2, 8).contains(&Range(3, 7)));
    assert!(!Range(3, 7).contains(&Range(2, 8)));
    assert!(Range(4, 6).contains(&Range(6, 6)));
    assert!(Range(4, 6).contains(&Range(4, 6)));
    assert!(!Range(2, 4).contains(&Range(4, 5)));
}

#[test]
fn overlaps_means_a_shared_seat() {
    assert!(Range(5, 7).overlaps(&Range(7, 9)));
    assert!(Range(7, 9).overlaps(&Range(5, 7)));
    assert!(Range(2, 8).overlaps(&Range(3, 7)));
    assert!(Range(3, 7).overlaps(&Range(2, 8)));
    assert!(!Range(2, 4).overlaps(&Range(6, 8)));
    assert!(!Range(6, 8).overlaps(&Range(2, 4)));
    assert!(!Range(2, 3).overlaps(&Range(4, 5)));
}

#[test]
fn sample_has_two_contained_and_four_overlapping_pairs() {
    let pairs: Vec<RangePair> = SAMPLE.iter().map(|l| RangePair::parse(l).unwrap()).collect();
    assert_eq!(pairs.iter().filter(|p| p.has_contained()).count(), 2);
    assert_eq!(pairs.iter().filter(|p| p.overlaps()).count(), 4);
}
