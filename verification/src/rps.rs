//! Rock, paper, scissors: who beats whom, what a round scores, and the two
//! ways to read a strategy guide.

use std::cmp::Ordering;
use vstd::prelude::*;
use vstd::std_specs::cmp::PartialOrdSpecImpl;
use vstd::string::StringSliceAdditionalSpecFns;
use crate::text::{lines, spec_each, spec_lines, views};

verus! {

#[derive(Debug, PartialEq, Eq, Copy, Clone, Structural)]
pub enum Move {
    Rock,
    Paper,
    Scissors,
}

impl Move {
    /// How `self` fares against `other`: greater when it wins, less when it
    /// loses. Paper beats rock, scissors beat paper, rock beats scissors.
    pub open spec fn versus(&self, other: &Move) -> Ordering {
        match (*self, *other) {
            (Move::Rock, Move::Rock) => Ordering::Equal,
            (Move::Rock, Move::Paper) => Ordering::Less,
            (Move::Rock, Move::Scissors) => Ordering::Greater,
            (Move::Paper, Move::Rock) => Ordering::Greater,
            (Move::Paper, Move::Paper) => Ordering::Equal,
            (Move::Paper, Move::Scissors) => Ordering::Less,
            (Move::Scissors, Move::Rock) => Ordering::Less,
            (Move::Scissors, Move::Paper) => Ordering::Greater,
            (Move::Scissors, Move::Scissors) => Ordering::Equal,
        }
    }

    /// How `self` fares against `other`.
    pub fn cmp(&self, other: &Self) -> (r: Ordering)
        ensures
            r == self.versus(other),
    {
        match self {
            Move::Rock => match other {
                Move::Rock => Ordering::Equal,
                Move::Paper => Ordering::Less,
                Move::Scissors => Ordering::Greater,
            },
            Move::Paper => match other {
                Move::Rock => Ordering::Greater,
                Move::Paper => Ordering::Equal,
                Move::Scissors => Ordering::Less,
            },
            Move::Scissors => match other {
                Move::Rock => Ordering::Less,
                Move::Paper => Ordering::Greater,
                Move::Scissors => Ordering::Equal,
            },
        }
    }

    /// What the shape itself is worth.
    pub open spec fn shape_score(&self) -> nat {
        match self {
            Move::Rock => 1,
            Move::Paper => 2,
            Move::Scissors => 3,
        }
    }

    /// What a round scores for the player of `self` against `other`: the
    /// worth of the shape, and 0 for a loss, 3 for a draw, 6 for a win.
    pub open spec fn spec_score(&self, other: &Move) -> nat {
        self.shape_score() + match self.versus(other) {
            Ordering::Less => 0nat,
            Ordering::Equal => 3nat,
            Ordering::Greater => 6nat,
        }
    }

    /// What a round scores for the player of `self` against `other`.
    pub fn score(&self, other: &Self) -> (r: usize)
        ensures
            r == self.spec_score(other),
            1 <= r <= 9,
    {
        let shape_score: usize = match self {
            Move::Rock => 1,
            Move::Paper => 2,
            Move::Scissors => 3,
        };
        let win_score: usize = match self.cmp(other) {
            Ordering::Less => 0,
            Ordering::Equal => 3,
            Ordering::Greater => 6,
        };
        shape_score + win_score
    }

    /// The move that the first letter of a line stands for.
    pub open spec fn spec_theirs(b: u8) -> Option<Move> {
        if b == 65 {
            Some(Move::Rock)
        } else if b == 66 {
            Some(Move::Paper)
        } else if b == 67 {
            Some(Move::Scissors)
        } else {
            None
        }
    }

    /// Reads the opponent's move: `A`, `B` or `C`.
    pub fn theirs(b: u8) -> (r: Option<Move>)
        ensures
            r == Move::spec_theirs(b),
    {
        if b == 65 {
            Some(Move::Rock)
        } else if b == 66 {
            Some(Move::Paper)
        } else if b == 67 {
            Some(Move::Scissors)
        } else {
            None
        }
    }

    /// The move that the third letter of a line stands for.
    pub open spec fn spec_ours(b: u8) -> Option<Move> {
        if b == 88 {
            Some(Move::Rock)
        } else if b == 89 {
            Some(Move::Paper)
        } else if b == 90 {
            Some(Move::Scissors)
        } else {
            None
        }
    }

    /// Reads one's own move: `X`, `Y` or `Z`.
    pub fn ours(b: u8) -> (r: Option<Move>)
        ensures
            r == Move::spec_ours(b),
    {
        if b == 88 {
            Some(Move::Rock)
        } else if b == 89 {
            Some(Move::Paper)
        } else if b == 90 {
            Some(Move::Scissors)
        } else {
            None
        }
    }
}

impl PartialOrd for Move {
    fn partial_cmp(&self, other: &Self) -> (r: Option<Ordering>) {
        Some(self.cmp(other))
    }
}

impl PartialOrdSpecImpl for Move {
    open spec fn obeys_partial_cmp_spec() -> bool {
        true
    }

    open spec fn partial_cmp_spec(&self, other: &Move) -> Option<Ordering> {
        Some(self.versus(other))
    }
}

#[derive(Debug, PartialEq, Eq, Copy, Clone, Structural)]
pub enum RoundResult {
    Win,
    Lose,
    Draw,
}

impl RoundResult {
    /// Whether `ours` played against `theirs` ends the round this way.
    pub open spec fn fits(&self, ours: &Move, theirs: &Move) -> bool {
        match self {
            RoundResult::Win => ours.versus(theirs) == Ordering::Greater,
            RoundResult::Lose => ours.versus(theirs) == Ordering::Less,
            RoundResult::Draw => ours == theirs,
        }
    }

    /// The move that gets this result against `matcher`.
    pub fn matched_move(&self, matcher: &Move) -> (r: Move)
        ensures
            self.fits(&r, matcher),
            forall|m: Move| self.fits(&m, matcher) ==> m == r,
    {
        let opts: [Move; 3] = [Move::Rock, Move::Paper, Move::Scissors];
        let mut i: usize = 0;
        while i < 3
            invariant
                i <= 3,
                opts@ == seq![Move::Rock, Move::Paper, Move::Scissors],
                forall|k: int| 0 <= k < i ==> !self.fits(&opts@[k], matcher),
            decreases 3 - i,
        {
            let opt = opts[i];
            let hit = match self {
                RoundResult::Win => matches!(opt.cmp(matcher), Ordering::Greater),
                RoundResult::Lose => matches!(opt.cmp(matcher), Ordering::Less),
                RoundResult::Draw => opt == *matcher,
            };
            if hit {
                return opt;
            }
            i += 1;
        }
        proof {
            assert(!self.fits(&opts@[0], matcher));
            assert(!self.fits(&opts@[1], matcher));
            assert(!self.fits(&opts@[2], matcher));
            assert(false);
        }
        Move::Rock
    }

    /// The result that the third letter of a line stands for.
    pub open spec fn spec_wanted(b: u8) -> Option<RoundResult> {
        if b == 88 {
            Some(RoundResult::Lose)
        } else if b == 89 {
            Some(RoundResult::Draw)
        } else if b == 90 {
            Some(RoundResult::Win)
        } else {
            None
        }
    }

    /// Reads the result to get: `X` to lose, `Y` to draw, `Z` to win.
    pub fn wanted(b: u8) -> (r: Option<RoundResult>)
        ensures
            r == RoundResult::spec_wanted(b),
    {
        if b == 88 {
            Some(RoundResult::Lose)
        } else if b == 89 {
            Some(RoundResult::Draw)
        } else if b == 90 {
            Some(RoundResult::Win)
        } else {
            None
        }
    }
}

/// The rounds of a game: one's own move, then the opponent's.
#[derive(Debug)]
pub struct MoveList {
    pub moves: Vec<(Move, Move)>,
}

/// The round that a line tells when its third letter is read as a move:
/// one's own move, then the opponent's.
pub open spec fn spec_round(line: Seq<u8>) -> Option<(Move, Move)> {
    if line.len() < 3 {
        None
    } else {
        match (Move::spec_ours(line[2]), Move::spec_theirs(line[0])) {
            (Some(slf), Some(opp)) => Some((slf, opp)),
            _ => None,
        }
    }
}

/// The round that a line tells when its third letter is read as the result
/// to get: the opponent's move, then the result.
pub open spec fn spec_plan(line: Seq<u8>) -> Option<(Move, RoundResult)> {
    if line.len() < 3 {
        None
    } else {
        match (Move::spec_theirs(line[0]), RoundResult::spec_wanted(line[2])) {
            (Some(opp), Some(res)) => Some((opp, res)),
            _ => None,
        }
    }
}

impl MoveList {
    /// Reads a guide line by line, the first letter of each as the
    /// opponent's move and the third as one's own. A line that is too short
    /// or holds another letter there makes the guide unreadable.
    pub fn parse(text: &str) -> (r: Option<MoveList>)
        ensures
            match spec_each(spec_lines(text.spec_bytes()), |l: Seq<u8>| spec_round(l)) {
                Some(rounds) => r is Some && r->0.moves@ == rounds,
                None => r is None,
            },
    {
        let rows = lines(text.as_bytes());
        let ghost all = views(rows@);
        let ghost f = |l: Seq<u8>| spec_round(l);
        let mut moves: Vec<(Move, Move)> = Vec::new();
        let mut i: usize = 0;
        while i < rows.len()
            invariant
                i <= rows@.len(),
                all == views(rows@),
                all == spec_lines(text.spec_bytes()),
                f == |l: Seq<u8>| spec_round(l),
                moves@.len() == i,
                forall|k: int| 0 <= k < i ==> f(all[k]) == Some(#[trigger] moves@[k]),
            decreases rows@.len() - i,
        {
            let line = &rows[i];
            assert(all[i as int] == line@);
            if line.len() < 3 {
                assert(f(all[i as int]) is None);
                return None;
            }
            match (Move::ours(line[2]), Move::theirs(line[0])) {
                (Some(slf), Some(opp)) => {
                    moves.push((slf, opp));
                },
                _ => {
                    assert(f(all[i as int]) is None);
                    return None;
                },
            }
            i += 1;
        }
        proof {
            assert forall|k: int| 0 <= k < all.len() implies (#[trigger] f(all[k])) is Some by {
                assert(f(all[k]) == Some(moves@[k]));
            }
            assert(moves@ =~= Seq::new(all.len(), |k: int| f(all[k])->0));
        }
        Some(MoveList { moves })
    }

    /// The sum of what the rounds score.
    pub open spec fn spec_total(rounds: Seq<(Move, Move)>) -> nat
        decreases rounds.len(),
    {
        if rounds.len() == 0 {
            0
        } else {
            MoveList::spec_total(rounds.drop_last()) + rounds.last().0.spec_score(&rounds.last().1)
        }
    }

    /// What all rounds score together, or nothing where the sum is too
    /// large for the machine.
    pub fn total_score(&self) -> (r: Option<usize>)
        ensures
            match r {
                Some(t) => t == MoveList::spec_total(self.moves@),
                None => MoveList::spec_total(self.moves@) > usize::MAX,
            },
    {
        let mut total: usize = 0;
        let mut i: usize = 0;
        assert(self.moves@.take(0) =~= Seq::<(Move, Move)>::empty());
        while i < self.moves.len()
            invariant
                i <= self.moves@.len(),
                total == MoveList::spec_total(self.moves@.take(i as int)),
            decreases self.moves@.len() - i,
        {
            let (s, o) = self.moves[i];
            let gain = s.score(&o);
            proof {
                assert(self.moves@.take(i + 1).drop_last() =~= self.moves@.take(i as int));
                lemma_total_grows(self.moves@, i + 1);
            }
            if gain > usize::MAX - total {
                return None;
            }
            total = total + gain;
            i += 1;
        }
        assert(self.moves@.take(i as int) =~= self.moves@);
        Some(total)
    }
}

/// The rounds played so far never score more than all rounds.
pub proof fn lemma_total_grows(rounds: Seq<(Move, Move)>, n: int)
    requires
        0 <= n <= rounds.len(),
    ensures
        MoveList::spec_total(rounds.take(n)) <= MoveList::spec_total(rounds),
    decreases rounds.len() - n,
{
    if n == rounds.len() {
        assert(rounds.take(n) =~= rounds);
    } else {
        assert(rounds.take(n + 1).drop_last() =~= rounds.take(n));
        lemma_total_grows(rounds, n + 1);
    }
}

/// The plan of a game: the opponent's move and the result to get.
#[derive(Debug)]
pub struct StratList {
    pub moves: Vec<(Move, RoundResult)>,
}

impl StratList {
    /// Reads a guide line by line, the first letter of each as the
    /// opponent's move and the third as the result to get. A line that is
    /// too short or holds another letter there makes the guide unreadable.
    pub fn parse(text: &str) -> (r: Option<StratList>)
        ensures
            match spec_each(spec_lines(text.spec_bytes()), |l: Seq<u8>| spec_plan(l)) {
                Some(plans) => r is Some && r->0.moves@ == plans,
                None => r is None,
            },
    {
        let rows = lines(text.as_bytes());
        let ghost all = views(rows@);
        let ghost f = |l: Seq<u8>| spec_plan(l);
        let mut moves: Vec<(Move, RoundResult)> = Vec::new();
        let mut i: usize = 0;
        while i < rows.len()
            invariant
                i <= rows@.len(),
                all == views(rows@),
                all == spec_lines(text.spec_bytes()),
                f == |l: Seq<u8>| spec_plan(l),
                moves@.len() == i,
                forall|k: int| 0 <= k < i ==> f(all[k]) == Some(#[trigger] moves@[k]),
            decreases rows@.len() - i,
        {
            let line = &rows[i];
            assert(all[i as int] == line@);
            if line.len() < 3 {
                assert(f(all[i as int]) is None);
                return None;
            }
            match (Move::theirs(line[0]), RoundResult::wanted(line[2])) {
                (Some(opp), Some(res)) => {
                    moves.push((opp, res));
                },
                _ => {
                    assert(f(all[i as int]) is None);
                    return None;
                },
            }
            i += 1;
        }
        proof {
            assert forall|k: int| 0 <= k < all.len() implies (#[trigger] f(all[k])) is Some by {
                assert(f(all[k]) == Some(moves@[k]));
            }
            assert(moves@ =~= Seq::new(all.len(), |k: int| f(all[k])->0));
        }
        Some(StratList { moves })
    }

    /// The rounds that carry the plan out: against each move of the
    /// opponent, the move that gets the wanted result.
    pub fn move_list(&self) -> (r: MoveList)
        ensures
            r.moves@.len() == self.moves@.len(),
            forall|i: int|
                0 <= i < self.moves@.len() ==> {
                    &&& (#[trigger] r.moves@[i]).1 == self.moves@[i].0
                    &&& self.moves@[i].1.fits(&r.moves@[i].0, &self.moves@[i].0)
                },
    {
        let mut moves: Vec<(Move, Move)> = Vec::new();
        let mut i: usize = 0;
        while i < self.moves.len()
            invariant
                i <= self.moves@.len(),
                moves@.len() == i,
                forall|k: int|
                    0 <= k < i ==> {
                        &&& (#[trigger] moves@[k]).1 == self.moves@[k].0
                        &&& self.moves@[k].1.fits(&moves@[k].0, &self.moves@[k].0)
                    },
            decreases self.moves@.len() - i,
        {
            let (opp, res) = self.moves[i];
            moves.push((res.matched_move(&opp), opp));
            i += 1;
        }
        MoveList { moves }
    }
}

} // verus!
