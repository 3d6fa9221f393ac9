//! The comment source adapter: extraction of a file's comment spans is
//! delegated to the `comment_parser` crate behind a trusted boundary, and the
//! extracted spans are handed to the verified scan.

use vstd::prelude::*;

use comment_parser::CommentParser;

use crate::scan::scan_comments;
use crate::scan::scan_spec;
use crate::scan::Reminder;

verus! {

/// Whether the comment grammar table has an entry for this path: true
/// exactly when `comment_parser::get_syntax_from_path` finds syntax rules
/// for the path's extension. A pure function of the path.
pub uninterp spec fn syntax_known(path: Seq<char>) -> bool;

/// The comment spans that `comment_parser` extracts from `text` under the
/// grammar chosen for `path`, in source order, each span's text as the
/// parser yields it. A pure function of the path and the text.
pub uninterp spec fn comments_in(path: Seq<char>, text: Seq<char>) -> Seq<Seq<char>>;

/// Relies on `comment_parser::get_syntax_from_path`, a pure lookup of syntax
/// rules by path extension, and on `comment_parser::CommentParser`, which
/// yields the comments of `contents` under those rules in source order.
/// Returns `None` exactly when no grammar is registered for the path.
#[verifier::external_body]
fn extract_comments(path: &str, contents: &str) -> (r: Option<Vec<String>>)
    ensures
        r.is_some() == syntax_known(path@),
        r matches Some(v) ==> v.deep_view() == comments_in(path@, contents@),
{
    match comment_parser::get_syntax_from_path(path) {
        Ok(rules) => Some(
            CommentParser::new(contents, rules).map(|e| e.text().to_string()).collect(),
        ),
        Err(_) => None,
    }
}

/// Relies on `str::chars`: the characters of the string, in order.
#[verifier::external_body]
fn chars_vec(s: &str) -> (r: Vec<char>)
    ensures
        r@ == s@,
{
    s.chars().collect()
}

/// List the reminders of one file. `path` selects the comment grammar;
/// `contents` is the file's text. Returns `None` exactly when no grammar is
/// registered for the path (an unrecognized file contributes no reminders);
/// otherwise the complete, ordered scan of the file's comments.
pub fn list_reminders(path: &str, contents: &str) -> (r: Option<Vec<Reminder>>)
    requires
        contents@.len() < 0xFFFF_FFFFusize,
    ensures
        r.is_some() == syntax_known(path@),
        r matches Some(v) ==> v@.map_values(|x: Reminder| x@) == scan_spec(
            contents@,
            comments_in(path@, contents@),
        ),
{
    match extract_comments(path, contents) {
        None => None,
        Some(comments) => {
            let contents_chars = chars_vec(contents);
            let mut spans: Vec<Vec<char>> = Vec::new();
            let n = comments.len();
            let mut i: usize = 0;
            proof {
                assert(spans.deep_view() =~= comments.deep_view().take(0));
            }
            while i < n
                invariant
                    i <= n,
                    n == comments@.len(),
                    comments.deep_view() == comments_in(path@, contents@),
                    spans.deep_view() == comments.deep_view().take(i as int),
                decreases n - i,
            {
                let ghost pre = spans.deep_view();
                let span = chars_vec(comments[i].as_str());
                spans.push(span);
                proof {
                    assert(span.deep_view() =~= span@);
                    assert(comments.deep_view()[i as int] == comments@[i as int]@);
                    assert(spans.deep_view() =~= pre.push(span@));
                    assert(spans.deep_view() =~= comments.deep_view().take(i + 1));
                }
                i += 1;
            }
            proof {
                assert(comments.deep_view().take(n as int) =~= comments.deep_view());
            }
            Some(scan_comments(&contents_chars, &spans))
        },
    }
}

} // verus!
