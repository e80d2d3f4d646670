use advent::rps::{Move, MoveList, RoundResult, StratList};
use std::cmp::Ordering;

#[test]
fn test_ordering() {
    assert!(Move::Rock < Move::Paper);
    assert!(Move::Rock > Move::Scissors);
    assert!(Move::Rock == Move::Rock);

    assert!(Move::Paper < Move::Scissors);
    assert!(Move::Paper > Move::Rock);
    assert!(Move::Paper == Move::Paper);

    assert!(Move::Scissors < Move::Rock);
    assert!(Move::Scissors > Move::Paper);
    assert!(Move::Scissors == Move::Scissors);
}

#[test]
fn cmp_agrees_with_the_operators() {
    let all = [Move::Rock, Move::Paper, Move::Scissors];
    for a in all {
        for b in all {
            assert_eq!(a.partial_cmp(&b), Some(a.cmp(&b)));
            assert_eq!(a.cmp(&b) == Ordering::Equal, a == b);
            assert_eq!(a.cmp(&b), b.cmp(&a).reverse());
        }
    }
}

#[test]
fn score_is_shape_plus_outcome() {
    assert_eq!(Move::Paper.score(&Move::Rock), 8);
    assert_eq!(Move::Rock.score(&Move::Paper), 1);
    assert_eq!(Move::Scissors.score(&Move::Scissors), 6);
    assert_eq!(Move::Rock.score(&Move::Scissors), 7);
    assert_eq!(Move::Scissors.score(&Move::Rock), 3);
}

#[test]
fn matched_move_gets_the_wanted_result() {
    assert_eq!(RoundResult::Draw.matched_move(&Move::Rock), Move::Rock);
    assert_eq!(RoundResult::Lose.matched_move(&Move::Paper), Move::Rock);
    assert_eq!(RoundResult::Win.matched_move(&Move::Scissors), Move::Rock);
    assert_eq!(RoundResult::Win.matched_move(&Move::Rock), Move::Paper);
    assert_eq!(RoundResult::Lose.matched_move(&Move::Rock), Move::Scissors);
    let all = [Move::Rock, Move::Paper, Move::Scissors];
    for m in all {
        assert!(RoundResult::Win.matched_move(&m) > m);
        assert!(RoundResult::Lose.matched_move(&m) < m);
        assert!(RoundResult::Draw.matched_move(&m) == m);
    }
}

#[test]
fn guide_read_as_moves_scores_15() {
    let list = MoveList::parse("A Y\nB X\nC Z\n").unwrap();
    assert_eq!(
        list.moves,
        vec![
            (Move::Paper, Move::Rock),
            (Move::Rock, Move::Paper),
            (Move::Scissors, Move::Scissors)
        ]
    );
    assert_eq!(list.total_score(), Some(15));
}

#[test]
fn guide_read_as_results_scores_12() {
    let plan = StratList::parse("A Y\nB X\nC Z").unwrap();
    assert_eq!(
        plan.moves,
        vec![
            (Move::Rock, RoundResult::Draw),
            (Move::Paper, RoundResult::Lose),
            (Move::Scissors, RoundResult::Win)
        ]
    );
    let list = plan.move_list();
    assert_eq!(
        list.moves,
        vec![
            (Move::Rock, Move::Rock),
            (Move::Rock, Move::Paper),
            (Move::Rock, Move::Scissors)
        ]
    );
    assert_eq!(list.total_score(), Some(12));
}

#[test]
fn unreadable_guides_are_refused() {
    assert!(MoveList::parse("A Y\nB\n").is_none());
    assert!(MoveList::parse("A Q\n").is_none());
    assert!(MoveList::parse("D X\n").is_none());
    assert!(StratList::parse("A X\nC W\n").is_none());
    assert!(StratList::parse("AX\n").is_none());
    assert_eq!(MoveList::parse("").unwrap().moves, vec![]);
    assert_eq!(MoveList::parse("").unwrap().total_score(), Some(0));
}
