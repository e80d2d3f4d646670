use advent::packet::{compare_lists, count_before, decoder_key, divider, number_order, Node};
use std::cmp::Ordering;

fn node(text: &str) -> Node {
    let bytes = text.as_bytes();
    let (n, at) = read(bytes, 0);
    assert_eq!(at, bytes.len());
    n
}

fn read(b: &[u8], mut at: usize) -> (Node, usize) {
    if b[at] == b'[' {
        at += 1;
        let mut items = Vec::new();
        while b[at] != b']' {
            let (n, next) = read(b, at);
            items.push(n);
            at = next;
            if b[at] == b',' {
                at += 1;
            }
        }
        (Node::List(items), at + 1)
    } else {
        let mut v: u64 = 0;
        while at < b.len() && b[at].is_ascii_digit() {
            v = v * 10 + (b[at] - b'0') as u64;
            at += 1;
        }
        (Node::Number(v), at)
    }
}

const PAIRS: [(&str, &str, Ordering); 8] = [
    ("[1,1,3,1,1]", "[1,1,5,1,1]", Ordering::Less),
    ("[[1],[2,3,4]]", "[[1],4]", Ordering::Less),
    ("[9]", "[[8,7,6]]", Ordering::Greater),
    ("[[4,4],4,4]", "[[4,4],4,4,4]", Ordering::Less),
    ("[7,7,7,7]", "[7,7,7]", Ordering::Greater),
    ("[]", "[3]", Ordering::Less),
    ("[[[]]]", "[[]]", Ordering::Greater),
    ("[1,[2,[3,[4,[5,6,7]]]],8,9]", "[1,[2,[3,[4,[5,6,0]]]],8,9]", Ordering::Greater),
];

#[test]
fn sample_pairs_compare_as_told() {
    let mut sum = 0;
    for (i, (l, r, want)) in PAIRS.iter().enumerate() {
        let (l, r) = (node(l), node(r));
        assert_eq!(l.cmp(&r), *want);
        assert_eq!(r.cmp(&l), want.reverse());
        assert_eq!(l.partial_cmp(&r), Some(*want));
        assert_eq!(l < r, *want == Ordering::Less);
        assert_eq!(l > r, *want == Ordering::Greater);
        if l < r {
            sum += i + 1;
        }
    }
    assert_eq!(sum, 13);
}

#[test]
fn a_number_compares_as_a_list_of_itself() {
    assert_eq!(node("3").cmp(&node("[3]")), Ordering::Equal);
    assert_eq!(node("[3]").cmp(&node("3")), Ordering::Equal);
    assert_eq!(node("3").cmp(&node("[[3]]")), Ordering::Equal);
    assert_eq!(node("3").cmp(&node("[3,1]")), Ordering::Less);
    assert_eq!(node("[3,1]").cmp(&node("3")), Ordering::Greater);
    assert_eq!(node("3").cmp(&node("[]")), Ordering::Greater);
    assert_eq!(node("[]").cmp(&node("3")), Ordering::Less);
    assert_eq!(node("3").cmp(&node("[4]")), Ordering::Less);
    assert_eq!(node("5").cmp(&node("[4,9]")), Ordering::Greater);
    assert_eq!(node("7").cmp(&node("7")), Ordering::Equal);
    assert!(node("3") != node("[3]"));
}

#[test]
fn numbers_and_lists_by_themselves() {
    assert_eq!(number_order(1, 2), Ordering::Less);
    assert_eq!(number_order(2, 2), Ordering::Equal);
    assert_eq!(number_order(u64::MAX, 0), Ordering::Greater);
    assert_eq!(compare_lists(&[], &[]), Ordering::Equal);
    assert_eq!(compare_lists(&[node("1")], &[node("1"), node("0")]), Ordering::Less);
    assert_eq!(compare_lists(&[node("2")], &[node("1"), node("0")]), Ordering::Greater);
}

#[test]
fn sample_decoder_key_is_140() {
    let mut packets = Vec::new();
    for (l, r, _) in PAIRS.iter() {
        packets.push(node(l));
        packets.push(node(r));
    }
    assert_eq!(count_before(&packets, &divider(2)), 9);
    assert_eq!(count_before(&packets, &divider(6)), 12);
    assert_eq!(decoder_key(&packets), Some(140));
    assert_eq!(decoder_key(&vec![]), Some(2));
    assert_eq!(divider(2), node("[[2]]"));
    assert_eq!(divider(6), node("[[6]]"));
}
