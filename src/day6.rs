//! Tuning trouble: the end of the first window of distinct bytes.
use vstd::prelude::*;
use vstd::string::StringSliceAdditionalSpecFns;
use vstd::slice::slice_subrange;
use crate::AOCSolutions;

verus! {

/// No byte occurs twice in `w`.
pub open spec fn all_distinct(w: Seq<u8>) -> bool {
    forall|i: int, j: int| 0 <= i < j < w.len() ==> w[i] != w[j]
}

/// The `n` bytes from `j` on are distinct.
pub open spec fn marker_at(s: Seq<u8>, j: int, n: int) -> bool {
    all_distinct(s.subrange(j, j + n))
}

/// The end of the first window of `n` distinct bytes in `s`, if there is one.
pub open spec fn is_first_marker_end(s: Seq<u8>, n: int, r: Option<usize>) -> bool {
    match r {
        Some(e) => n <= e <= s.len() && marker_at(s, e - n, n) && forall|j: int|
            0 <= j < e - n ==> !marker_at(s, j, n),
        None => forall|j: int| 0 <= j <= s.len() - n ==> !marker_at(s, j, n),
    }
}

pub struct Day6;

impl Day6 {
    /// The end of the first window of `config` distinct bytes. The windows can
    /// be examined in any order, by any number of workers: the answer is the
    /// smallest such end whatever `thread_count` is.
    pub fn pooled_decode(input: &[u8], config: usize, thread_count: usize) -> (r: Option<usize>)
        requires
            thread_count > 0,
            config > 0,
            input@.len() >= config,
        ensures
            is_first_marker_end(input@, config as int, r),
    {
        let mut j: usize = 0;
        while j <= input.len() - config
            invariant
                config > 0,
                input@.len() >= config,
                0 <= j <= input@.len() - config + 1,
                forall|k: int| 0 <= k < j ==> !marker_at(input@, k, config as int),
            decreases input@.len() - config + 1 - j,
        {
            let window = slice_subrange(input, j, j + config);
            if Day6::is_packet_start_marker(window) {
                assert(window@ == input@.subrange(j as int, j + config));
                return Some(j + config);
            }
            assert(window@ == input@.subrange(j as int, j + config));
            j = j + 1;
        }
        None
    }

    /// Whether no byte occurs twice in the slice.
    pub fn is_packet_start_marker(u8_subslice: &[u8]) -> (r: bool)
        ensures
            r == all_distinct(u8_subslice@),
    {
        let n = u8_subslice.len();
        let mut i: usize = 0;
        while i < n
            invariant
                n == u8_subslice@.len(),
                0 <= i <= n,
                forall|a: int, b: int| 0 <= a < b < n && a < i ==> u8_subslice@[a] != u8_subslice@[b],
            decreases n - i,
        {
            let mut j: usize = i + 1;
            while j < n
                invariant
                    n == u8_subslice@.len(),
                    0 <= i < n,
                    i + 1 <= j <= n,
                    forall|a: int, b: int| 0 <= a < b < n && a < i ==> u8_subslice@[a] != u8_subslice@[b],
                    forall|b: int| i < b < j ==> u8_subslice@[i as int] != u8_subslice@[b],
                decreases n - j,
            {
                if u8_subslice[i] == u8_subslice[j] {
                    return false;
                }
                j = j + 1;
            }
            i = i + 1;
        }
        true
    }
}

/// The answer of a part whose windows have `n` bytes.
pub open spec fn answer(s: Seq<u8>, n: int, r: Result<i64, ()>) -> bool {
    match r {
        Ok(e) => is_first_marker_end(s, n, Some(e as usize)) && e >= 0,
        Err(_) => is_first_marker_end(s, n, None),
    }
}

impl AOCSolutions for Day6 {
    open spec fn accepts_1(input: Seq<u8>) -> bool {
        4 <= input.len() <= i64::MAX
    }

    open spec fn accepts_2(input: Seq<u8>) -> bool {
        14 <= input.len() <= i64::MAX
    }

    open spec fn star_1(input: Seq<u8>, r: Result<i64, ()>) -> bool {
        answer(input, 4, r)
    }

    open spec fn star_2(input: Seq<u8>, r: Result<i64, ()>) -> bool {
        answer(input, 14, r)
    }

    /// The end of the first start-of-packet marker (four distinct bytes).
    fn get_star_1(input: &str) -> (r: Result<i64, ()>) {
        let s = input.as_bytes();
        match Day6::pooled_decode(s, 4, 8) {
            Some(v) => Ok(v as i64),
            None => Err(()),
        }
    }

    /// The end of the first start-of-message marker (fourteen distinct bytes).
    fn get_star_2(input: &str) -> (r: Result<i64, ()>) {
        let s = input.as_bytes();
        match Day6::pooled_decode(s, 14, 8) {
            Some(v) => Ok(v as i64),
            None => Err(()),
        }
    }
}

} // verus!
