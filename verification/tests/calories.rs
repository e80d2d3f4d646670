use advent::calories::{max_calories, pack_total, parse_text, total_top_3};

const SAMPLE: &str = "1000\n2000\n3000\n\n4000\n\n5000\n6000\n\n7000\n8000\n9000\n\n10000\n";

#[test]
fn parse_text_groups_by_empty_lines() {
    assert_eq!(
        parse_text(SAMPLE),
        Some(vec![
            vec![1000, 2000, 3000],
            vec![4000],
            vec![5000, 6000],
            vec![7000, 8000, 9000],
            vec![10000]
        ])
    );
    assert_eq!(parse_text(""), Some(vec![vec![]]));
    assert_eq!(parse_text("\n\n7\n"), Some(vec![vec![], vec![], vec![7]]));
    assert_eq!(parse_text("7\n\n"), Some(vec![vec![7], vec![]]));
    assert_eq!(parse_text("+7\n"), Some(vec![vec![7]]));
}

#[test]
fn parse_text_refuses_what_is_no_number() {
    assert_eq!(parse_text("12\nx\n"), None);
    assert_eq!(parse_text("-1\n"), None);
    assert_eq!(parse_text(" 1\n"), None);
    assert_eq!(parse_text("99999999999999999999999999\n"), None);
}

#[test]
fn sample_maximum_is_24000() {
    let elves = parse_text(SAMPLE).unwrap();
    assert_eq!(max_calories(&elves), Some(24000));
    assert_eq!(pack_total(&elves[2]), Some(11000));
    assert_eq!(pack_total(&vec![]), Some(0));
}

#[test]
fn sample_top_three_hold_45000() {
    let elves = parse_text(SAMPLE).unwrap();
    assert_eq!(total_top_3(&elves), Some(45000));
}

#[test]
fn fewer_than_three_packs() {
    assert_eq!(total_top_3(&vec![]), Some(0));
    assert_eq!(total_top_3(&vec![vec![5, 5]]), Some(10));
    assert_eq!(total_top_3(&vec![vec![1], vec![2]]), Some(3));
    assert_eq!(total_top_3(&vec![vec![3], vec![3], vec![3], vec![3]]), Some(9));
    assert_eq!(max_calories(&vec![]), None);
    assert_eq!(max_calories(&vec![vec![]]), Some(0));
}

#[test]
fn sums_too_large_for_the_machine() {
    let big = vec![vec![usize::MAX, 1]];
    assert_eq!(pack_total(&big[0]), None);
    assert_eq!(max_calories(&big), None);
    assert_eq!(total_top_3(&big), None);
    assert_eq!(total_top_3(&vec![vec![usize::MAX], vec![1]]), None);
    assert_eq!(max_calories(&vec![vec![usize::MAX], vec![1]]), Some(usize::MAX));
}
