//! Splitting a comment span's text into lines, and trimming the leading
//! whitespace of a span. Lines end at a newline; a carriage return directly
//! before the newline is not part of the line. Whitespace here is ASCII
//! whitespace.

use vstd::prelude::*;

verus! {

pub open spec fn is_space(c: char) -> bool {
    c == ' ' || c == '\t' || c == '\n' || c == '\r' || c == '\u{b}' || c == '\u{c}'
}

/// `s` with its leading whitespace removed.
pub open spec fn trim_start_spec(s: Seq<char>) -> Seq<char>
    decreases s.len(),
{
    if s.len() > 0 && is_space(s[0]) {
        trim_start_spec(s.drop_first())
    } else {
        s
    }
}

/// A line with a trailing carriage return removed.
pub open spec fn strip_cr(l: Seq<char>) -> Seq<char> {
    if l.len() > 0 && l[l.len() - 1] == '\r' {
        l.drop_last()
    } else {
        l
    }
}

/// The lines of `s` after the partial line `cur` already read: each newline
/// ends a line, and a final nonempty partial line is a line of its own.
pub open spec fn lines_from(s: Seq<char>, cur: Seq<char>) -> Seq<Seq<char>>
    decreases s.len(),
{
    if s.len() == 0 {
        if cur.len() == 0 {
            Seq::empty()
        } else {
            seq![cur]
        }
    } else if s[0] == '\n' {
        seq![strip_cr(cur)] + lines_from(s.drop_first(), Seq::empty())
    } else {
        lines_from(s.drop_first(), cur.push(s[0]))
    }
}

/// The lines of `s`.
pub open spec fn lines_spec(s: Seq<char>) -> Seq<Seq<char>> {
    lines_from(s, Seq::empty())
}

/// Remove the leading whitespace of `text`.
pub fn trim_start(text: &Vec<char>) -> (r: Vec<char>)
    ensures
        r@ == trim_start_spec(text@),
{
    let n = text.len();
    let mut i: usize = 0;
    proof {
        assert(text@.skip(0) =~= text@);
    }
    while i < n && (text[i] == ' ' || text[i] == '\t' || text[i] == '\n' || text[i] == '\r'
        || text[i] == '\u{b}' || text[i] == '\u{c}')
        invariant
            i <= n,
            n == text@.len(),
            trim_start_spec(text@) == trim_start_spec(text@.skip(i as int)),
        decreases n - i,
    {
        proof {
            assert(text@.skip(i as int)[0] == text@[i as int]);
            assert(text@.skip(i as int).drop_first() =~= text@.skip(i + 1));
        }
        i += 1;
    }
    let mut r: Vec<char> = Vec::new();
    let mut j: usize = i;
    while j < n
        invariant
            i <= j <= n,
            n == text@.len(),
            r@ =~= text@.subrange(i as int, j as int),
        decreases n - j,
    {
        r.push(text[j]);
        j += 1;
    }
    proof {
        if i < n {
            assert(text@.skip(i as int)[0] == text@[i as int]);
        } else {
            assert(text@.skip(i as int) =~= Seq::<char>::empty());
        }
        assert(trim_start_spec(text@.skip(i as int)) == text@.skip(i as int));
        assert(r@ =~= text@.skip(i as int));
    }
    r
}

/// Split `text` into its lines.
pub fn split_lines(text: &Vec<char>) -> (r: Vec<Vec<char>>)
    ensures
        r@.map_values(|l: Vec<char>| l@) == lines_spec(text@),
{
    let n = text.len();
    let mut r: Vec<Vec<char>> = Vec::new();
    let mut cur: Vec<char> = Vec::new();
    let mut i: usize = 0;
    proof {
        assert(text@.skip(0) =~= text@);
        assert(r@.map_values(|l: Vec<char>| l@) + lines_from(text@, cur@) =~= lines_from(
            text@,
            cur@,
        ));
    }
    while i < n
        invariant
            i <= n,
            n == text@.len(),
            lines_spec(text@) == r@.map_values(|l: Vec<char>| l@) + lines_from(
                text@.skip(i as int),
                cur@,
            ),
        decreases n - i,
    {
        let c = text[i];
        proof {
            assert(text@.skip(i as int)[0] == text@[i as int]);
            assert(text@.skip(i as int).drop_first() =~= text@.skip(i + 1));
        }
        if c == '\n' {
            let ghost pre = r@.map_values(|l: Vec<char>| l@);
            let ghost pcur = cur@;
            let stripped = strip_cr_exec(cur);
            r.push(stripped);
            cur = Vec::new();
            proof {
                assert(r@.map_values(|l: Vec<char>| l@) =~= pre.push(strip_cr(pcur)));
                assert(pre + (seq![strip_cr(pcur)] + lines_from(text@.skip(i + 1), cur@)) =~= pre.push(
                    strip_cr(pcur),
                ) + lines_from(text@.skip(i + 1), cur@));
            }
        } else {
            cur.push(c);
        }
        i += 1;
    }
    proof {
        assert(text@.skip(n as int) =~= Seq::<char>::empty());
    }
    if cur.len() > 0 {
        let ghost pre = r@.map_values(|l: Vec<char>| l@);
        let ghost pcur = cur@;
        r.push(cur);
        proof {
            assert(r@.map_values(|l: Vec<char>| l@) =~= pre.push(pcur));
            assert(pre + seq![pcur] =~= pre.push(pcur));
        }
    } else {
        proof {
            assert(r@.map_values(|l: Vec<char>| l@) + Seq::<Seq<char>>::empty() =~= r@.map_values(
                |l: Vec<char>| l@,
            ));
        }
    }
    r
}

fn strip_cr_exec(l: Vec<char>) -> (r: Vec<char>)
    ensures
        r@ == strip_cr(l@),
{
    let n = l.len();
    if n > 0 && l[n - 1] == '\r' {
        let mut r = l;
        r.pop();
        proof {
            assert(r@ =~= l@.drop_last());
        }
        r
    } else {
        l
    }
}

} // verus!
