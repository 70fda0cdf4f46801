//! Camp cleanup: pairs of section ranges that contain or overlap each other.
use vstd::prelude::*;
use vstd::string::StringSliceAdditionalSpecFns;
use crate::AOCSolutions;
use crate::text::{lines, trim, split_on, span, spans_of, is_int_text, int_value, line_spans, trim_span,
    split_spans_on, parse_int};

verus! {

/// Two inclusive ranges, each as its first and last section.
pub type RangeInclDuo = ((i64, i64), (i64, i64));

/// The pieces of a trimmed line between `-` and `,`.
pub open spec fn fields(l: Seq<u8>) -> Seq<Seq<u8>> {
    split_on(trim(l), 45u8, 44u8)
}

/// A line with at least four fields.
pub open spec fn has_four(l: Seq<u8>) -> bool {
    fields(l).len() >= 4
}

/// The first four fields of a line with four fields are integers of `i64`.
pub open spec fn numeric(l: Seq<u8>) -> bool {
    forall|j: int|
        0 <= j < 4 ==> is_int_text(#[trigger] fields(l)[j]) && i64::MIN <= int_value(fields(l)[j])
            <= i64::MAX
}

pub open spec fn duo_of(l: Seq<u8>) -> RangeInclDuo {
    let f = fields(l);
    (
        (int_value(f[0]) as i64, int_value(f[1]) as i64),
        (int_value(f[2]) as i64, int_value(f[3]) as i64),
    )
}

pub open spec fn range_contains(r: (i64, i64), x: i64) -> bool {
    r.0 <= x <= r.1
}

/// One range holds both ends of the other.
pub open spec fn one_contains_other(d: RangeInclDuo) -> bool {
    (range_contains(d.0, d.1.0) && range_contains(d.0, d.1.1)) || (range_contains(d.1, d.0.0)
        && range_contains(d.1, d.0.1))
}

pub open spec fn overlap(d: RangeInclDuo) -> bool {
    d.0.0 <= d.1.1 && d.0.1 >= d.1.0
}

/// The number of lines whose pair satisfies `contained` (or `overlap`, for part two).
pub open spec fn count_pairs(ls: Seq<Seq<u8>>, part_two: bool) -> int
    decreases ls.len(),
{
    if ls.len() == 0 {
        0
    } else {
        count_pairs(ls.drop_last(), part_two) + if (if part_two {
            overlap(duo_of(ls.last()))
        } else {
            one_contains_other(duo_of(ls.last()))
        }) {
            1int
        } else {
            0
        }
    }
}

/// Every line of four fields or more has numbers in its first four.
pub open spec fn assignments_ok(s: Seq<u8>) -> bool {
    &&& lines(s).len() <= 1_000_000_000_000
    &&& forall|k: int| 0 <= k < lines(s).len() && has_four(#[trigger] lines(s)[k]) ==> numeric(lines(s)[k])
}

pub open spec fn all_have_four(ls: Seq<Seq<u8>>) -> bool {
    forall|k: int| 0 <= k < ls.len() ==> has_four(#[trigger] ls[k])
}

pub struct Day4;

impl Day4 {
    /// The pair of ranges on each line; `None` where a line has fewer than four fields.
    pub fn parse_to_rangeduos(input: &[u8]) -> (r: Option<Vec<RangeInclDuo>>)
        requires
            assignments_ok(input@),
        ensures
            r is None <==> !all_have_four(lines(input@)),
            r matches Some(v) ==> v@ == lines(input@).map_values(|l: Seq<u8>| duo_of(l)),
    {
        let ghost ls = lines(input@);
        let spans = line_spans(input);
        let mut out: Vec<RangeInclDuo> = Vec::new();
        let mut i: usize = 0;
        while i < spans.len()
            invariant
                ls == lines(input@),
                assignments_ok(input@),
                spans_of(input@, spans@, ls),
                0 <= i <= spans@.len(),
                out@ == ls.subrange(0, i as int).map_values(|l: Seq<u8>| duo_of(l)),
                all_have_four(ls.subrange(0, i as int)),
            decreases spans@.len() - i,
        {
            let (lo, hi) = spans[i];
            let (a, b) = trim_span(input, lo, hi);
            let f = split_spans_on(input, a, b, 45u8, 44u8);
            proof {
                assert(span(input@, lo, hi) == ls[i as int]);
                assert(spans_of(input@, f@, fields(ls[i as int])));
            }
            if f.len() < 4 {
                proof {
                    assert(!has_four(ls[i as int]));
                }
                return None;
            }
            proof {
                assert(numeric(ls[i as int]));
                assert(is_int_text(fields(ls[i as int])[0]));
                assert(is_int_text(fields(ls[i as int])[1]));
                assert(is_int_text(fields(ls[i as int])[2]));
                assert(is_int_text(fields(ls[i as int])[3]));
            }
            let n0 = parse_int(input, f[0].0, f[0].1).unwrap();
            let n1 = parse_int(input, f[1].0, f[1].1).unwrap();
            let n2 = parse_int(input, f[2].0, f[2].1).unwrap();
            let n3 = parse_int(input, f[3].0, f[3].1).unwrap();
            out.push(((n0, n1), (n2, n3)));
            proof {
                assert(ls.subrange(0, i + 1) =~= ls.subrange(0, i as int).push(ls[i as int]));
                assert(out@ =~= ls.subrange(0, i + 1).map_values(|l: Seq<u8>| duo_of(l)));
            }
            i = i + 1;
        }
        proof {
            assert(ls.subrange(0, i as int) =~= ls);
        }
        Some(out)
    }

    /// The number of pairs that satisfy the rule of the part.
    fn count(ranges: &Vec<RangeInclDuo>, part_two: bool) -> (r: i64)
        requires
            ranges@.len() <= 1_000_000_000_000,
        ensures
            r == count_duos(ranges@, part_two),
    {
        let mut acc: i64 = 0;
        let mut i: usize = 0;
        while i < ranges.len()
            invariant
                0 <= i <= ranges@.len() <= 1_000_000_000_000,
                acc == count_duos(ranges@.subrange(0, i as int), part_two),
                0 <= acc <= i,
            decreases ranges@.len() - i,
        {
            let ((s0, e0), (s1, e1)) = ranges[i];
            let hit = if part_two {
                s0 <= e1 && e0 >= s1
            } else {
                (s0 <= s1 && s1 <= e0 && s0 <= e1 && e1 <= e0) || (s1 <= s0 && s0 <= e1 && s1 <= e0
                    && e0 <= e1)
            };
            proof {
                assert(ranges@.subrange(0, i + 1).drop_last() =~= ranges@.subrange(0, i as int));
            }
            if hit {
                acc = acc + 1;
            }
            i = i + 1;
        }
        proof {
            assert(ranges@.subrange(0, i as int) =~= ranges@);
        }
        acc
    }
}

/// The number of pairs in `d` that satisfy the rule of the part.
pub open spec fn count_duos(d: Seq<RangeInclDuo>, part_two: bool) -> int
    decreases d.len(),
{
    if d.len() == 0 {
        0
    } else {
        count_duos(d.drop_last(), part_two) + if (if part_two {
            overlap(d.last())
        } else {
            one_contains_other(d.last())
        }) {
            1int
        } else {
            0
        }
    }
}

pub proof fn lemma_count_duos(ls: Seq<Seq<u8>>, part_two: bool)
    ensures
        count_duos(ls.map_values(|l: Seq<u8>| duo_of(l)), part_two) == count_pairs(ls, part_two),
    decreases ls.len(),
{
    if ls.len() > 0 {
        lemma_count_duos(ls.drop_last(), part_two);
        assert(ls.map_values(|l: Seq<u8>| duo_of(l)).drop_last() =~= ls.drop_last().map_values(
            |l: Seq<u8>| duo_of(l),
        ));
    }
}

/// The answer of a part: an error where some line has fewer than four fields.
pub open spec fn answer(s: Seq<u8>, part_two: bool) -> Result<i64, ()> {
    if all_have_four(lines(s)) {
        Ok(count_pairs(lines(s), part_two) as i64)
    } else {
        Err(())
    }
}

impl AOCSolutions for Day4 {
    open spec fn accepts_1(input: Seq<u8>) -> bool {
        assignments_ok(input)
    }

    open spec fn accepts_2(input: Seq<u8>) -> bool {
        assignments_ok(input)
    }

    open spec fn star_1(input: Seq<u8>, r: Result<i64, ()>) -> bool {
        r == answer(input, false)
    }

    open spec fn star_2(input: Seq<u8>, r: Result<i64, ()>) -> bool {
        r == answer(input, true)
    }

    /// The number of pairs in which one range contains the other.
    fn get_star_1(input: &str) -> (r: Result<i64, ()>) {
        match Day4::parse_to_rangeduos(input.as_bytes()) {
            Some(ranges) => {
                proof {
                    lemma_count_duos(lines(input.spec_bytes()), false);
                }
                Ok(Day4::count(&ranges, false))
            },
            None => Err(()),
        }
    }

    /// The number of pairs whose ranges overlap.
    fn get_star_2(input: &str) -> (r: Result<i64, ()>) {
        match Day4::parse_to_rangeduos(input.as_bytes()) {
            Some(ranges) => {
                proof {
                    lemma_count_duos(lines(input.spec_bytes()), true);
                }
                Ok(Day4::count(&ranges, true))
            },
            None => Err(()),
        }
    }
}

} // verus!
