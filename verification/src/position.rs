//! Position resolution: finding the first occurrence of a target line at or
//! after a cursor, and converting an offset into a 1-based row and a 0-based
//! character column.

use vstd::prelude::*;

verus! {

/// `needle` occurs in `hay` starting at index `i`.
pub open spec fn occurs_at(hay: Seq<char>, needle: Seq<char>, i: int) -> bool {
    &&& 0 <= i
    &&& i + needle.len() <= hay.len()
    &&& hay.subrange(i, i + needle.len()) == needle
}

/// `needle` occurs in `hay` at some index at or after `from`.
pub open spec fn occurs_from(hay: Seq<char>, needle: Seq<char>, from: int) -> bool {
    exists|i: int| from <= i && occurs_at(hay, needle, i)
}

/// `i` is the first index at or after `from` at which `needle` occurs in `hay`.
pub open spec fn is_first_occurrence(
    hay: Seq<char>,
    needle: Seq<char>,
    from: int,
    i: int,
) -> bool {
    &&& from <= i
    &&& occurs_at(hay, needle, i)
    &&& forall|j: int| from <= j < i ==> !occurs_at(hay, needle, j)
}

/// The first index at or after `from` at which `needle` occurs in `hay`;
/// meaningful only when `occurs_from(hay, needle, from)` holds.
pub open spec fn first_occurrence(hay: Seq<char>, needle: Seq<char>, from: int) -> int {
    choose|i: int| is_first_occurrence(hay, needle, from, i)
}

proof fn lemma_first_occurrence_from_witness(hay: Seq<char>, needle: Seq<char>, from: int, k: int)
    requires
        from <= k,
        occurs_at(hay, needle, k),
    ensures
        exists|i: int| is_first_occurrence(hay, needle, from, i),
    decreases k - from,
{
    if occurs_at(hay, needle, from) {
        assert(is_first_occurrence(hay, needle, from, from));
    } else {
        let next = from + 1;
        lemma_first_occurrence_from_witness(hay, needle, next, k);
        let i = choose|i: int| is_first_occurrence(hay, needle, next, i);
        assert(is_first_occurrence(hay, needle, from, i));
    }
}

/// When `needle` occurs at or after `from`, a first occurrence exists and
/// `first_occurrence` denotes it.
pub proof fn lemma_first_occurrence(hay: Seq<char>, needle: Seq<char>, from: int)
    requires
        occurs_from(hay, needle, from),
    ensures
        is_first_occurrence(hay, needle, from, first_occurrence(hay, needle, from)),
{
    let k = choose|i: int| from <= i && occurs_at(hay, needle, i);
    lemma_first_occurrence_from_witness(hay, needle, from, k);
}

/// The first occurrence is unique.
pub proof fn lemma_first_occurrence_unique(
    hay: Seq<char>,
    needle: Seq<char>,
    from: int,
    i: int,
    j: int,
)
    requires
        is_first_occurrence(hay, needle, from, i),
        is_first_occurrence(hay, needle, from, j),
    ensures
        i == j,
{
}

fn match_at(hay: &Vec<char>, needle: &Vec<char>, i: usize) -> (r: bool)
    requires
        i + needle@.len() <= hay@.len(),
    ensures
        r == occurs_at(hay@, needle@, i as int),
{
    let n = needle.len();
    let h = hay.len();
    let mut j: usize = 0;
    while j < n
        invariant
            j <= n,
            n == needle@.len(),
            h == hay@.len(),
            i + n <= h,
            forall|k: int| 0 <= k < j ==> hay@[i + k] == needle@[k],
        decreases n - j,
    {
        if hay[i + j] != needle[j] {
            proof {
                let sub = hay@.subrange(i as int, i + needle@.len());
                assert(sub[j as int] == hay@[i + j]);
                assert(sub != needle@);
            }
            return false;
        }
        j += 1;
    }
    proof {
        assert(hay@.subrange(i as int, i + needle@.len()) =~= needle@);
    }
    true
}

/// Search `hay` for the first occurrence of `needle` at or after index `from`.
pub fn find_from(hay: &Vec<char>, needle: &Vec<char>, from: usize) -> (r: Option<usize>)
    ensures
        match r {
            Some(i) => is_first_occurrence(hay@, needle@, from as int, i as int),
            None => !occurs_from(hay@, needle@, from as int),
        },
{
    let hn = hay.len();
    let nn = needle.len();
    if nn > hn || from > hn - nn {
        proof {
            assert forall|j: int| from <= j implies !occurs_at(hay@, needle@, j) by {
                if occurs_at(hay@, needle@, j) {
                    assert(j + needle@.len() <= hay@.len());
                }
            }
        }
        return None;
    }
    if nn == 0 {
        proof {
            assert(hay@.subrange(from as int, from as int) =~= needle@);
            assert(occurs_at(hay@, needle@, from as int));
        }
        return Some(from);
    }
    let mut i: usize = from;
    while i <= hn - nn
        invariant
            hn == hay@.len(),
            nn == needle@.len(),
            1 <= nn <= hn,
            from <= i <= hn - nn + 1,
            forall|j: int| from <= j < i ==> !occurs_at(hay@, needle@, j),
        decreases hn - i,
    {
        if match_at(hay, needle, i) {
            return Some(i);
        }
        i += 1;
    }
    proof {
        assert forall|j: int| from <= j implies !occurs_at(hay@, needle@, j) by {
            if occurs_at(hay@, needle@, j) {
                assert(j + needle@.len() <= hay@.len());
                assert(j <= hn - nn);
            }
        }
    }
    None
}

/// The number of newline characters among the first `upto` characters of `s`.
pub open spec fn newline_count(s: Seq<char>, upto: int) -> int
    decreases upto,
{
    if upto <= 0 {
        0
    } else {
        newline_count(s, upto - 1) + if s[upto - 1] == '\n' {
            1int
        } else {
            0int
        }
    }
}

/// The index of the start of the line containing position `upto` of `s`:
/// the index just past the last newline strictly before `upto`, or 0.
pub open spec fn line_start(s: Seq<char>, upto: int) -> int
    decreases upto,
{
    if upto <= 0 {
        0
    } else if s[upto - 1] == '\n' {
        upto
    } else {
        line_start(s, upto - 1)
    }
}

pub proof fn lemma_newline_count_bounds(s: Seq<char>, upto: int)
    requires
        0 <= upto,
    ensures
        0 <= newline_count(s, upto) <= upto,
    decreases upto,
{
    if upto > 0 {
        lemma_newline_count_bounds(s, upto - 1);
    }
}

pub proof fn lemma_line_start_bounds(s: Seq<char>, upto: int)
    requires
        0 <= upto,
    ensures
        0 <= line_start(s, upto) <= upto,
    decreases upto,
{
    if upto > 0 {
        lemma_line_start_bounds(s, upto - 1);
    }
}

pub proof fn lemma_newline_count_monotone(s: Seq<char>, a: int, b: int)
    requires
        0 <= a <= b,
    ensures
        newline_count(s, a) <= newline_count(s, b),
    decreases b - a,
{
    if a < b {
        lemma_newline_count_monotone(s, a, b - 1);
    }
}

proof fn lemma_line_start_stable(s: Seq<char>, a: int, b: int)
    requires
        0 <= a <= b,
        newline_count(s, a) == newline_count(s, b),
    ensures
        line_start(s, b) == line_start(s, a),
    decreases b - a,
{
    if a < b {
        lemma_newline_count_monotone(s, a, b - 1);
        lemma_line_start_stable(s, a, b - 1);
    }
}

/// Positions order lexicographically by offset: a later offset lies on a
/// later row, or on the same row at a greater column.
pub proof fn lemma_position_lex(s: Seq<char>, a: int, b: int)
    requires
        0 <= a < b,
    ensures
        newline_count(s, a) < newline_count(s, b) || (newline_count(s, a) == newline_count(s, b)
            && a - line_start(s, a) < b - line_start(s, b)),
{
    lemma_newline_count_monotone(s, a, b);
    if newline_count(s, a) == newline_count(s, b) {
        lemma_line_start_stable(s, a, b);
    }
}

/// The 1-based row and 0-based character column of offset `occ` in `contents`.
fn row_col_at(contents: &Vec<char>, occ: usize) -> (rc: (u32, u32))
    requires
        occ <= contents@.len(),
        contents@.len() < 0xFFFF_FFFFusize,
    ensures
        rc.0 as int == 1 + newline_count(contents@, occ as int),
        rc.1 as int == occ - line_start(contents@, occ as int),
{
    let mut count: u32 = 0;
    let mut start: usize = 0;
    let mut k: usize = 0;
    while k < occ
        invariant
            k <= occ <= contents@.len(),
            contents@.len() < 0xFFFF_FFFFusize,
            count as int == newline_count(contents@, k as int),
            start as int == line_start(contents@, k as int),
        decreases occ - k,
    {
        proof {
            lemma_newline_count_bounds(contents@, k as int);
        }
        if contents[k] == '\n' {
            count += 1;
            start = k + 1;
        }
        k += 1;
    }
    proof {
        lemma_newline_count_bounds(contents@, occ as int);
        lemma_line_start_bounds(contents@, occ as int);
    }
    (count + 1, (occ - start) as u32)
}

/// Row and column of the first occurrence of `substr` in `contents` at or
/// after `from`. Rows are 1-based line counts; columns are 0-based character
/// offsets from the start of the occurrence's line.
pub fn get_row_and_column(contents: &Vec<char>, substr: &Vec<char>, from: usize) -> (rc: (
    u32,
    u32,
))
    requires
        occurs_from(contents@, substr@, from as int),
        contents@.len() < 0xFFFF_FFFFusize,
    ensures
        ({
            let occ = first_occurrence(contents@, substr@, from as int);
            &&& rc.0 as int == 1 + newline_count(contents@, occ)
            &&& rc.1 as int == occ - line_start(contents@, occ)
        }),
{
    proof {
        lemma_first_occurrence(contents@, substr@, from as int);
    }
    match find_from(contents, substr, from) {
        Some(i) => {
            proof {
                lemma_first_occurrence_unique(
                    contents@,
                    substr@,
                    from as int,
                    i as int,
                    first_occurrence(contents@, substr@, from as int),
                );
            }
            row_col_at(contents, i)
        },
        None => {
            proof {
                assert(false);
            }
            (1, 0)
        },
    }
}

} // verus!
