use advent::signal::{all_distinct, find_header, find_message, find_n_unique, marker_end};

#[test]
fn test_header_cases() {
    let inputs = vec![
        "bvwbjplbgvbhsrlpgdmjqwftvncz",
        "nppdvjthqldpwncqszvftbrmjlhg",
        "nznrnfrfntjfmvfwmzdfjlvtqnbhcprsg",
        "zcfzfwzzqfrljwzlrfnpqdbhtmscgvjw",
    ];

    let outputs = vec![5, 6, 10, 11];

    for (ip, op) in std::iter::zip(inputs, outputs) {
        assert_eq!(find_header(ip), op);
    }
}

#[test]
fn test_message_cases() {
    let inputs = vec![
        "mjqjpqmgbljsphdztnvjfqwrcgsmlb",
        "bvwbjplbgvbhsrlpgdmjqwftvncz",
        "nppdvjthqldpwncqszvftbrmjlhg",
        "nznrnfrfntjfmvfwmzdfjlvtqnbhcprsg",
        "zcfzfwzzqfrljwzlrfnpqdbhtmscgvjw",
    ];

    let outputs = vec![19, 23, 23, 29, 26];

    for (ip, op) in std::iter::zip(inputs, outputs) {
        assert_eq!(find_message(ip), op);
    }
}

#[test]
fn marker_at_the_very_start_and_the_very_end() {
    assert_eq!(find_n_unique("abcd", 4), 4);
    assert_eq!(find_n_unique("aaaabcd", 4), 7);
    assert_eq!(find_n_unique("mjqjpqmgbljsphdztnvjfqwrcgsmlb", 4), 7);
    assert_eq!(find_n_unique("xyz", 1), 1);
}

#[test]
fn marker_end_says_when_there_is_none() {
    assert_eq!(marker_end(b"aaaa", 2), None);
    assert_eq!(marker_end(b"abc", 4), None);
    assert_eq!(marker_end(b"", 1), None);
    assert_eq!(marker_end(b"abc", 0), None);
    assert_eq!(marker_end(b"aab", 2), Some(3));
    assert_eq!(marker_end(b"abab", 2), Some(2));
}

#[test]
fn all_distinct_finds_repeats() {
    assert!(all_distinct(b""));
    assert!(all_distinct(b"a"));
    assert!(all_distinct(b"abcd"));
    assert!(!all_distinct(b"abca"));
    assert!(!all_distinct(b"abcc"));
}
