//! Rock, paper, scissors: the score of a strategy guide.
use vstd::prelude::*;
use vstd::string::StringSliceAdditionalSpecFns;
use crate::AOCSolutions;
use crate::text::{lines, trim, split, span, spans_of, line_spans, trim_span, split_spans};

verus! {

#[derive(PartialEq, Eq, Structural, Clone, Copy)]
pub enum Play {
    Rock,
    Paper,
    Scissors,
}

/// The play that a letter of the guide stands for.
pub open spec fn letter_play(b: u8) -> Option<Play> {
    if b == 65u8 || b == 88u8 {
        Some(Play::Rock)
    } else if b == 66u8 || b == 89u8 {
        Some(Play::Paper)
    } else if b == 67u8 || b == 90u8 {
        Some(Play::Scissors)
    } else {
        None
    }
}

/// The play that a one-letter token stands for.
pub open spec fn token_play(t: Seq<u8>) -> Option<Play> {
    if t.len() == 1 {
        letter_play(t[0])
    } else {
        None
    }
}

pub open spec fn pref_score(p: Play) -> int {
    match p {
        Play::Rock => 1,
        Play::Paper => 2,
        Play::Scissors => 3,
    }
}

/// The play that `p` beats.
pub open spec fn beaten_by(p: Play) -> Play {
    match p {
        Play::Rock => Play::Scissors,
        Play::Paper => Play::Rock,
        Play::Scissors => Play::Paper,
    }
}

/// 6 for a win of `me` over `other`, 3 for a draw, 0 for a loss.
pub open spec fn outcome_score(me: Play, other: Play) -> int {
    if me == other {
        3
    } else if beaten_by(me) == other {
        6
    } else {
        0
    }
}

pub open spec fn round_score(me: Play, other: Play) -> int {
    outcome_score(me, other) + pref_score(me)
}

/// The first two space-separated tokens of a trimmed line.
pub open spec fn tokens(l: Seq<u8>) -> Seq<Seq<u8>> {
    split(trim(l), 32u8)
}

/// A line of two plays: the opponent's, then one's own.
pub open spec fn line_ok_1(l: Seq<u8>) -> bool {
    tokens(l).len() >= 2 && token_play(tokens(l)[0]) is Some && token_play(tokens(l)[1]) is Some
}

/// A line of the opponent's play, then X, Y or Z for the outcome wanted.
pub open spec fn line_ok_2(l: Seq<u8>) -> bool {
    &&& tokens(l).len() >= 2
    &&& token_play(tokens(l)[0]) is Some
    &&& tokens(l)[1].len() == 1
    &&& 88u8 <= tokens(l)[1][0] <= 90u8
}

pub open spec fn line_score_1(l: Seq<u8>) -> int {
    round_score(token_play(tokens(l)[1]).unwrap(), token_play(tokens(l)[0]).unwrap())
}

/// The play that loses to (X), draws with (Y) or wins over (Z) `other`.
pub open spec fn wanted_play(other: Play, w: u8) -> Play {
    if w == 88u8 {
        beaten_by(other)
    } else if w == 89u8 {
        other
    } else {
        beaten_by(beaten_by(other))
    }
}

pub open spec fn line_score_2(l: Seq<u8>) -> int {
    let other = token_play(tokens(l)[0]).unwrap();
    round_score(wanted_play(other, tokens(l)[1][0]), other)
}

pub open spec fn total_1(ls: Seq<Seq<u8>>) -> int
    decreases ls.len(),
{
    if ls.len() == 0 {
        0
    } else {
        total_1(ls.drop_last()) + line_score_1(ls.last())
    }
}

pub open spec fn total_2(ls: Seq<Seq<u8>>) -> int
    decreases ls.len(),
{
    if ls.len() == 0 {
        0
    } else {
        total_2(ls.drop_last()) + line_score_2(ls.last())
    }
}

/// Every line is a round, and the line count keeps any total within `i64`.
pub open spec fn guide_ok(s: Seq<u8>, part_two: bool) -> bool {
    &&& lines(s).len() <= 1_000_000_000_000
    &&& forall|k: int|
        0 <= k < lines(s).len() ==> if part_two {
            line_ok_2(#[trigger] lines(s)[k])
        } else {
            line_ok_1(lines(s)[k])
        }
}

impl Play {
    /// The play that a one-letter token stands for.
    pub fn from_str(s: &[u8], lo: usize, hi: usize) -> (r: Result<Play, ()>)
        requires
            lo <= hi <= s@.len(),
        ensures
            r matches Ok(p) ==> token_play(span(s@, lo, hi)) == Some(p),
            r is Err ==> token_play(span(s@, lo, hi)) is None,
    {
        if hi - lo != 1 {
            return Err(());
        }
        let b = s[lo];
        assert(span(s@, lo, hi)[0] == b);
        if b == 65u8 || b == 88u8 {
            Ok(Play::Rock)
        } else if b == 66u8 || b == 89u8 {
            Ok(Play::Paper)
        } else if b == 67u8 || b == 90u8 {
            Ok(Play::Scissors)
        } else {
            Err(())
        }
    }

    pub fn get_pref_score(&self) -> (r: i64)
        ensures
            r == pref_score(*self),
    {
        match self {
            Play::Rock => 1,
            Play::Paper => 2,
            Play::Scissors => 3,
        }
    }

    pub fn outcome(&self, other: &Play) -> (r: i64)
        ensures
            r == outcome_score(*self, *other),
    {
        match self {
            Play::Rock => match other {
                Play::Paper => 0,
                Play::Rock => 3,
                Play::Scissors => 6,
            },
            Play::Paper => match other {
                Play::Scissors => 0,
                Play::Paper => 3,
                Play::Rock => 6,
            },
            Play::Scissors => match other {
                Play::Rock => 0,
                Play::Scissors => 3,
                Play::Paper => 6,
            },
        }
    }

    pub fn lose_over(&self) -> (r: Play)
        ensures
            r == beaten_by(*self),
    {
        match self {
            Play::Rock => Play::Scissors,
            Play::Paper => Play::Rock,
            Play::Scissors => Play::Paper,
        }
    }

    pub fn draw_over(&self) -> (r: Play)
        ensures
            r == *self,
    {
        *self
    }

    pub fn win_over(&self) -> (r: Play)
        ensures
            beaten_by(r) == *self,
            r == beaten_by(beaten_by(*self)),
    {
        match self {
            Play::Rock => Play::Paper,
            Play::Paper => Play::Scissors,
            Play::Scissors => Play::Rock,
        }
    }
}

/// One round: one's own play, then the opponent's.
pub struct Round(pub Play, pub Play);

impl Round {
    pub fn get_score(&self) -> (r: i64)
        ensures
            r == round_score(self.0, self.1),
    {
        self.0.outcome(&self.1) + self.0.get_pref_score()
    }
}

/// The score of the round on line `s[lo..hi]`.
fn score_line(s: &[u8], lo: usize, hi: usize, part_two: bool) -> (r: i64)
    requires
        lo <= hi <= s@.len(),
        if part_two {
            line_ok_2(span(s@, lo, hi))
        } else {
            line_ok_1(span(s@, lo, hi))
        },
    ensures
        r == if part_two {
            line_score_2(span(s@, lo, hi))
        } else {
            line_score_1(span(s@, lo, hi))
        },
        0 <= r <= 9,
{
    let ghost l = span(s@, lo, hi);
    let (a, b) = trim_span(s, lo, hi);
    let toks = split_spans(s, a, b, 32u8);
    proof {
        assert(spans_of(s@, toks@, tokens(l)));
    }
    let (t0, u0) = toks[0];
    let (t1, u1) = toks[1];
    let other = Play::from_str(s, t0, u0).unwrap();
    let me = if !part_two {
        Play::from_str(s, t1, u1).unwrap()
    } else {
        assert(span(s@, t1, u1)[0] == s@[t1 as int]);
        let w = s[t1];
        if w == 88u8 {
            other.lose_over()
        } else if w == 89u8 {
            other.draw_over()
        } else {
            other.win_over()
        }
    };
    Round(me, other).get_score()
}

fn total_score(input: &[u8], part_two: bool) -> (r: i64)
    requires
        guide_ok(input@, part_two),
    ensures
        r == if part_two {
            total_2(lines(input@))
        } else {
            total_1(lines(input@))
        },
{
    let ghost ls = lines(input@);
    let spans = line_spans(input);
    let mut score: i64 = 0;
    let mut i: usize = 0;
    while i < spans.len()
        invariant
            ls == lines(input@),
            guide_ok(input@, part_two),
            spans_of(input@, spans@, ls),
            0 <= i <= spans@.len(),
            0 <= score <= 9 * i,
            score == if part_two {
                total_2(ls.subrange(0, i as int))
            } else {
                total_1(ls.subrange(0, i as int))
            },
        decreases spans@.len() - i,
    {
        let (lo, hi) = spans[i];
        proof {
            assert(ls.subrange(0, i + 1).drop_last() =~= ls.subrange(0, i as int));
            assert(span(input@, lo, hi) == ls[i as int]);
        }
        let v = score_line(input, lo, hi, part_two);
        score = score + v;
        i = i + 1;
    }
    proof {
        assert(ls.subrange(0, i as int) =~= ls);
    }
    score
}

pub struct Day2;

impl AOCSolutions for Day2 {
    open spec fn accepts_1(input: Seq<u8>) -> bool {
        guide_ok(input, false)
    }

    open spec fn accepts_2(input: Seq<u8>) -> bool {
        guide_ok(input, true)
    }

    open spec fn star_1(input: Seq<u8>, r: Result<i64, ()>) -> bool {
        r == Ok::<i64, ()>(total_1(lines(input)) as i64)
    }

    open spec fn star_2(input: Seq<u8>, r: Result<i64, ()>) -> bool {
        r == Ok::<i64, ()>(total_2(lines(input)) as i64)
    }

    /// The total score when the second letter names one's own play.
    fn get_star_1(input: &str) -> (r: Result<i64, ()>) {
        Ok(total_score(input.as_bytes(), false))
    }

    /// The total score when the second letter names the outcome wanted.
    fn get_star_2(input: &str) -> (r: Result<i64, ()>) {
        Ok(total_score(input.as_bytes(), true))
    }
}

} // verus!
