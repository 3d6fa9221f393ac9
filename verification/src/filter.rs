//! The reminder filter: a line of comment text is a reminder when it matches
//! the grammar "one or more uppercase letters, then anything, then a colon,
//! anchored at the start of the line" and additionally starts with one of the
//! allow-listed verbs `TODO`, `FIXME` or `BUG`.

use vstd::prelude::*;

verus! {

pub open spec fn is_upper(c: char) -> bool {
    ('A' as u32) <= (c as u32) && (c as u32) <= ('Z' as u32)
}

/// The line starts with one or more uppercase letters followed, possibly
/// after further characters, by a colon. The grammar is a superset
/// pre-filter; the allow-list below is the final test.
pub open spec fn pattern_matches(line: Seq<char>) -> bool {
    &&& line.len() >= 2
    &&& is_upper(line[0])
    &&& exists|i: int| 1 <= i < line.len() && line[i] == ':'
}

pub open spec fn spec_starts_with(line: Seq<char>, prefix: Seq<char>) -> bool {
    prefix.len() <= line.len() && line.subrange(0, prefix.len() as int) == prefix
}

pub open spec fn todo_verb() -> Seq<char> {
    seq!['T', 'O', 'D', 'O']
}

pub open spec fn fixme_verb() -> Seq<char> {
    seq!['F', 'I', 'X', 'M', 'E']
}

pub open spec fn bug_verb() -> Seq<char> {
    seq!['B', 'U', 'G']
}

/// The line starts with one of the allow-listed verbs.
pub open spec fn verb_allowed(line: Seq<char>) -> bool {
    ||| spec_starts_with(line, todo_verb())
    ||| spec_starts_with(line, fixme_verb())
    ||| spec_starts_with(line, bug_verb())
}

/// A line of comment text is a reminder line when it matches the grammar and
/// starts with an allow-listed verb.
pub open spec fn is_reminder_line(line: Seq<char>) -> bool {
    pattern_matches(line) && verb_allowed(line)
}

fn starts_with_chars(line: &Vec<char>, prefix: &Vec<char>) -> (r: bool)
    ensures
        r == spec_starts_with(line@, prefix@),
{
    let n = prefix.len();
    if n > line.len() {
        return false;
    }
    let mut j: usize = 0;
    while j < n
        invariant
            j <= n,
            n == prefix@.len(),
            n <= line@.len(),
            forall|k: int| 0 <= k < j ==> line@[k] == prefix@[k],
        decreases n - j,
    {
        if line[j] != prefix[j] {
            proof {
                let sub = line@.subrange(0, prefix@.len() as int);
                assert(sub[j as int] == line@[j as int]);
            }
            return false;
        }
        j += 1;
    }
    proof {
        assert(line@.subrange(0, prefix@.len() as int) =~= prefix@);
    }
    true
}

fn matches_pattern(line: &Vec<char>) -> (r: bool)
    ensures
        r == pattern_matches(line@),
{
    let n = line.len();
    if n < 2 {
        return false;
    }
    let c0 = line[0] as u32;
    if !('A' as u32 <= c0 && c0 <= 'Z' as u32) {
        return false;
    }
    let mut i: usize = 1;
    while i < n
        invariant
            1 <= i <= n,
            n == line@.len(),
            n >= 2,
            is_upper(line@[0]),
            forall|k: int| 1 <= k < i ==> line@[k] != ':',
        decreases n - i,
    {
        if line[i] == ':' {
            proof {
                assert(exists|k: int| 1 <= k < line@.len() && line@[k] == ':') by {
                    assert(line@[i as int] == ':');
                }
            }
            return true;
        }
        i += 1;
    }
    false
}

/// Decide whether one line of comment text is a reminder line.
pub fn line_is_reminder(line: &Vec<char>) -> (r: bool)
    ensures
        r == is_reminder_line(line@),
{
    if !matches_pattern(line) {
        return false;
    }
    let todo = vec!['T', 'O', 'D', 'O'];
    let fixme = vec!['F', 'I', 'X', 'M', 'E'];
    let bug = vec!['B', 'U', 'G'];
    proof {
        assert(todo@ =~= todo_verb());
        assert(fixme@ =~= fixme_verb());
        assert(bug@ =~= bug_verb());
    }
    starts_with_chars(line, &todo) || starts_with_chars(line, &fixme) || starts_with_chars(
        line,
        &bug,
    )
}

} // verus!
