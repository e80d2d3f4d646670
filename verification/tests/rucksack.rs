use advent::rucksack::{parse_groups, ElfGroup, InvalidItem, Item, Rucksack};

const SAMPLE: &str = "vJrwpWtwJgWrhcsFMMfFFhFp\njqHRNqRjqzjGDLGLrsFMfFZSrLrFZsSL\nPmmdzqPrVvPwwTWBwg\nwMqvLMZHhHMvwLHjbvcjnnSBnvTQFn\nttgJtRGJQctTZtZT\nCrZsJsPPZsGzwwsLwLmpwMDw\n";

#[test]
fn priorities_of_letters() {
    assert_eq!(Item(b'a').priority(), 1);
    assert_eq!(Item(b'z').priority(), 26);
    assert_eq!(Item(b'A').priority(), 27);
    assert_eq!(Item(b'Z').priority(), 52);
    assert_eq!(Item(b'p').priority(), 16);
    assert_eq!(Item(b'L').priority(), 38);
}

#[test]
fn try_from_accepts_letters_only() {
    assert_eq!(Item::try_from(b'q'), Ok(Item(b'q')));
    assert_eq!(Item::try_from(b'Q'), Ok(Item(b'Q')));
    assert_eq!(Item::try_from(b'1'), Err(InvalidItem(b'1')));
    assert_eq!(Item::try_from(b'['), Err(InvalidItem(b'[')));
    assert_eq!(Item::try_from(b'`'), Err(InvalidItem(b'`')));
}

#[test]
fn parse_halves_the_line() {
    let sack = Rucksack::parse("abcabd");
    assert_eq!(sack.front, vec![Item(b'a'), Item(b'b'), Item(b'c')]);
    assert_eq!(sack.back, vec![Item(b'a'), Item(b'b'), Item(b'd')]);
    let odd = Rucksack::parse("aabbb");
    assert_eq!(odd.front, vec![Item(b'a')]);
    assert_eq!(odd.back, vec![Item(b'b')]);
}

#[test]
fn sample_common_priorities_sum_to_157() {
    let expected = [16u8, 38, 42, 22, 20, 19];
    let mut sum: usize = 0;
    for (line, want) in SAMPLE.lines().zip(expected) {
        let sack = Rucksack::parse(line);
        assert_eq!(sack.common_priority(), Some(want));
        sum += want as usize;
    }
    assert_eq!(sum, 157);
}

#[test]
fn no_common_item_gives_nothing() {
    let sack = Rucksack::parse("abcdef");
    assert_eq!(sack.common_item(), None);
    assert_eq!(sack.common_priority(), None);
    assert_eq!(Rucksack::parse("a1b1").common_priority(), None);
    assert_eq!(Rucksack::parse("a1b1").common_item(), Some(Item(b'1')));
}

#[test]
fn contents_hold_each_kind_once() {
    let sack = Rucksack::parse("abab");
    assert_eq!(sack.contents(), vec![Item(b'a'), Item(b'b')]);
    let other = Rucksack::parse("abcd");
    assert_eq!(other.contents(), vec![Item(b'a'), Item(b'b'), Item(b'c'), Item(b'd')]);
}

#[test]
fn sample_groups_share_r_and_z() {
    let groups = parse_groups(SAMPLE).unwrap();
    assert_eq!(groups.len(), 2);
    assert_eq!(groups[0].common_element(), Some(Item(b'r')));
    assert_eq!(groups[1].common_element(), Some(Item(b'Z')));
    assert_eq!(groups[0].common_priority(), Some(18));
    assert_eq!(groups[1].common_priority(), Some(52));
}

#[test]
fn groups_need_lines_by_three() {
    assert!(parse_groups("ab\ncd\n").is_none());
    assert!(parse_groups("ab\ncd\nef\ngh\n").is_none());
    assert_eq!(parse_groups("").unwrap().len(), 0);
    let groups = parse_groups("ab\ncd\nef\n").unwrap();
    assert_eq!(groups.len(), 1);
    assert_eq!(groups[0].common_element(), None);
    assert_eq!(groups[0].common_priority(), None);
}

#[test]
fn group_built_by_hand() {
    let group = ElfGroup(vec![
        Rucksack::parse("xyzq"),
        Rucksack::parse("qrst"),
        Rucksack::parse("uvwq"),
    ]);
    assert_eq!(group.common_element(), Some(Item(b'q')));
    assert_eq!(group.common_priority(), Some(17));
}
