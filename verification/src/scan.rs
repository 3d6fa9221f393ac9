//! The per-file scan: filter each comment span's lines through the reminder
//! filter, and resolve each matched line to a position with a search cursor
//! threaded across the whole file, so repeated identical reminder lines
//! resolve to successive positions.

use vstd::prelude::*;

use crate::filter::is_reminder_line;
use crate::filter::line_is_reminder;
use crate::lines::lines_spec;
use crate::lines::split_lines;
use crate::lines::trim_start;
use crate::lines::trim_start_spec;
use crate::position::find_from;
use crate::position::first_occurrence;
use crate::position::get_row_and_column;
use crate::position::is_first_occurrence;
use crate::position::lemma_first_occurrence;
use crate::position::lemma_first_occurrence_unique;
use crate::position::line_start;
use crate::position::newline_count;
use crate::position::occurs_at;
use crate::position::occurs_from;

verus! {

/// One reported reminder: the 1-based row and 0-based character column where
/// the matched line occurs in the file, and the matched line's text.
pub struct Reminder {
    pub row: u32,
    pub col: u32,
    pub contents: Vec<char>,
}

/// The mathematical model of a reminder.
pub ghost struct ReminderModel {
    pub row: int,
    pub col: int,
    pub contents: Seq<char>,
}

impl View for Reminder {
    type V = ReminderModel;

    open spec fn view(&self) -> ReminderModel {
        ReminderModel { row: self.row as int, col: self.col as int, contents: self.contents@ }
    }
}

/// The reminder reported for an occurrence of `line` at offset `occ` of
/// `contents`.
pub open spec fn reminder_model_at(contents: Seq<char>, line: Seq<char>, occ: int) -> ReminderModel {
    ReminderModel {
        row: 1 + newline_count(contents, occ),
        col: occ - line_start(contents, occ),
        contents: line,
    }
}

/// Resolve each target line in turn against `contents`: each target is looked
/// up at or after the cursor, and the cursor advances to one past the found
/// occurrence, so the next identical target resolves to a later occurrence.
/// A target with no occurrence at or after the cursor is skipped.
pub open spec fn resolve(contents: Seq<char>, targets: Seq<Seq<char>>, cursor: int) -> Seq<
    ReminderModel,
>
    decreases targets.len(),
{
    if targets.len() == 0 {
        Seq::empty()
    } else if occurs_from(contents, targets[0], cursor) {
        seq![
            reminder_model_at(contents, targets[0], first_occurrence(contents, targets[0], cursor)),
        ] + resolve(
            contents,
            targets.drop_first(),
            first_occurrence(contents, targets[0], cursor) + 1,
        )
    } else {
        resolve(contents, targets.drop_first(), cursor)
    }
}

/// The cursor after resolving `targets` against `contents` from `cursor`.
pub open spec fn cursor_after(contents: Seq<char>, targets: Seq<Seq<char>>, cursor: int) -> int
    decreases targets.len(),
{
    if targets.len() == 0 {
        cursor
    } else if occurs_from(contents, targets[0], cursor) {
        cursor_after(
            contents,
            targets.drop_first(),
            first_occurrence(contents, targets[0], cursor) + 1,
        )
    } else {
        cursor_after(contents, targets.drop_first(), cursor)
    }
}

/// Resolving a concatenation resolves the first part, then the second from
/// the cursor the first part ends with.
pub proof fn lemma_resolve_append(
    contents: Seq<char>,
    a: Seq<Seq<char>>,
    b: Seq<Seq<char>>,
    cursor: int,
)
    ensures
        resolve(contents, a + b, cursor) == resolve(contents, a, cursor) + resolve(
            contents,
            b,
            cursor_after(contents, a, cursor),
        ),
        cursor_after(contents, a + b, cursor) == cursor_after(
            contents,
            b,
            cursor_after(contents, a, cursor),
        ),
    decreases a.len(),
{
    if a.len() == 0 {
        assert(a + b =~= b);
        assert(resolve(contents, a, cursor) + resolve(contents, b, cursor) =~= resolve(
            contents,
            b,
            cursor,
        ));
    } else {
        assert((a + b)[0] == a[0]);
        assert((a + b).len() > 0);
        assert((a + b).drop_first() =~= a.drop_first() + b);
        if occurs_from(contents, a[0], cursor) {
            let occ = first_occurrence(contents, a[0], cursor);
            lemma_resolve_append(contents, a.drop_first(), b, occ + 1);
            let head = seq![reminder_model_at(contents, a[0], occ)];
            let r1 = resolve(contents, a.drop_first(), occ + 1);
            let r2 = resolve(contents, b, cursor_after(contents, a.drop_first(), occ + 1));
            assert(head + (r1 + r2) =~= (head + r1) + r2);
        } else {
            lemma_resolve_append(contents, a.drop_first(), b, cursor);
        }
    }
}

/// The line filter as a value, for `Seq::filter`.
pub open spec fn reminder_pred() -> spec_fn(Seq<char>) -> bool {
    |l: Seq<char>| is_reminder_line(l)
}

/// The reminder lines of one comment span: the span's leading whitespace is
/// trimmed, the span is split into lines, and the reminder lines are kept in
/// order.
pub open spec fn reminder_lines(comment: Seq<char>) -> Seq<Seq<char>> {
    lines_spec(trim_start_spec(comment)).filter(reminder_pred())
}

/// The reminder lines of a sequence of comment spans, in span order.
pub open spec fn all_reminder_lines(comments: Seq<Seq<char>>) -> Seq<Seq<char>> {
    comments.flat_map(|c: Seq<char>| reminder_lines(c))
}

/// The complete scan of one file: every reminder line of its comments,
/// resolved in order against the file's contents with one cursor threaded
/// from the start of the file.
pub open spec fn scan_spec(contents: Seq<char>, comments: Seq<Seq<char>>) -> Seq<ReminderModel> {
    resolve(contents, all_reminder_lines(comments), 0)
}

proof fn lemma_filter_singleton(l: Seq<char>)
    ensures
        seq![l].filter(reminder_pred()) == if is_reminder_line(l) {
            seq![l]
        } else {
            Seq::<Seq<char>>::empty()
        },
{
    reveal_with_fuel(Seq::filter, 2);
    assert(seq![l].drop_last() =~= Seq::<Seq<char>>::empty());
    assert(Seq::<Seq<char>>::empty().filter(reminder_pred()) =~= Seq::<Seq<char>>::empty());
    assert(seq![l].last() == l);
    if is_reminder_line(l) {
        assert(Seq::<Seq<char>>::empty().push(l) =~= seq![l]);
    }
}

/// Resolving a single target appends its reminder when it occurs at or after
/// the cursor, and nothing otherwise.
proof fn lemma_resolve_singleton(contents: Seq<char>, l: Seq<char>, cursor: int)
    ensures
        occurs_from(contents, l, cursor) ==> resolve(contents, seq![l], cursor) == seq![
            reminder_model_at(contents, l, first_occurrence(contents, l, cursor)),
        ],
        occurs_from(contents, l, cursor) ==> cursor_after(contents, seq![l], cursor)
            == first_occurrence(contents, l, cursor) + 1,
        !occurs_from(contents, l, cursor) ==> resolve(contents, seq![l], cursor) == Seq::<
            ReminderModel,
        >::empty(),
        !occurs_from(contents, l, cursor) ==> cursor_after(contents, seq![l], cursor) == cursor,
{
    let empty_t = Seq::<Seq<char>>::empty();
    assert(seq![l].drop_first() =~= empty_t);
    assert(seq![l][0] == l);
    if occurs_from(contents, l, cursor) {
        let occ = first_occurrence(contents, l, cursor);
        assert(resolve(contents, empty_t, occ + 1) =~= Seq::<ReminderModel>::empty());
        assert(cursor_after(contents, empty_t, occ + 1) == occ + 1);
        assert(seq![reminder_model_at(contents, l, occ)] + Seq::<ReminderModel>::empty() =~= seq![
            reminder_model_at(contents, l, occ),
        ]);
    } else {
        assert(resolve(contents, empty_t, cursor) =~= Seq::<ReminderModel>::empty());
        assert(cursor_after(contents, empty_t, cursor) == cursor);
    }
}

/// Completeness and order of resolution. When every target occurs in
/// `contents`, at positions at or after the cursor that strictly increase in
/// target order, then every target is reported exactly once, in order, at an
/// occurrence of its text; and the chosen occurrences strictly increase, so
/// two targets with byte-identical text resolve to distinct occurrences in
/// textual order. The returned sequence gives the chosen occurrences.
pub proof fn lemma_resolve_complete(
    contents: Seq<char>,
    targets: Seq<Seq<char>>,
    cursor: int,
    pos: Seq<int>,
) -> (occs: Seq<int>)
    requires
        pos.len() == targets.len(),
        forall|i: int|
            0 <= i < targets.len() ==> occurs_at(contents, #[trigger] targets[i], pos[i]),
        forall|i: int| 0 <= i < targets.len() ==> cursor <= #[trigger] pos[i],
        forall|i: int, j: int| 0 <= i < j < targets.len() ==> pos[i] < pos[j],
    ensures
        resolve(contents, targets, cursor).len() == targets.len(),
        occs.len() == targets.len(),
        forall|i: int|
            0 <= i < targets.len() ==> resolve(contents, targets, cursor)[i]
                == reminder_model_at(contents, targets[i], #[trigger] occs[i]),
        forall|i: int| 0 <= i < targets.len() ==> cursor <= #[trigger] occs[i] <= pos[i],
        forall|i: int|
            0 <= i < targets.len() ==> occurs_at(contents, targets[i], #[trigger] occs[i]),
        forall|i: int, j: int| 0 <= i < j < targets.len() ==> occs[i] < occs[j],
    decreases targets.len(),
{
    if targets.len() == 0 {
        Seq::empty()
    } else {
        assert(occurs_at(contents, targets[0], pos[0]));
        assert(occurs_from(contents, targets[0], cursor));
        lemma_first_occurrence(contents, targets[0], cursor);
        let occ0 = first_occurrence(contents, targets[0], cursor);
        assert(occ0 <= pos[0]) by {
            if pos[0] < occ0 {
                assert(!occurs_at(contents, targets[0], pos[0]));
            }
        }
        let tail = targets.drop_first();
        let ptail = pos.drop_first();
        assert forall|i: int| 0 <= i < tail.len() implies occurs_at(
            contents,
            #[trigger] tail[i],
            ptail[i],
        ) && occ0 + 1 <= ptail[i] by {
            assert(tail[i] == targets[i + 1]);
            assert(ptail[i] == pos[i + 1]);
            assert(occurs_at(contents, targets[i + 1], pos[i + 1]));
            assert(pos[0] < pos[i + 1]);
        }
        assert forall|i: int, j: int| 0 <= i < j < tail.len() implies ptail[i] < ptail[j] by {
            assert(pos[i + 1] < pos[j + 1]);
        }
        let rec = lemma_resolve_complete(contents, tail, occ0 + 1, ptail);
        let occs = seq![occ0] + rec;
        let r = resolve(contents, targets, cursor);
        let rtail = resolve(contents, tail, occ0 + 1);
        assert(r =~= seq![reminder_model_at(contents, targets[0], occ0)] + rtail);
        assert forall|i: int| 0 <= i < targets.len() implies r[i] == reminder_model_at(
            contents,
            targets[i],
            #[trigger] occs[i],
        ) && cursor <= occs[i] <= pos[i] && occurs_at(contents, targets[i], occs[i]) by {
            if i == 0 {
                assert(occs[0] == occ0);
            } else {
                assert(occs[i] == rec[i - 1]);
                assert(r[i] == rtail[i - 1]);
                assert(tail[i - 1] == targets[i]);
                assert(ptail[i - 1] == pos[i]);
            }
        }
        assert forall|i: int, j: int| 0 <= i < j < targets.len() implies occs[i] < occs[j] by {
            if i == 0 {
                assert(occs[j] == rec[j - 1]);
                assert(occ0 + 1 <= occs[j]);
            } else {
                assert(occs[i] == rec[i - 1]);
                assert(occs[j] == rec[j - 1]);
            }
        }
        occs
    }
}

/// `a` lies strictly before `b` in (row, column) order.
pub open spec fn position_lt(a: ReminderModel, b: ReminderModel) -> bool {
    a.row < b.row || (a.row == b.row && a.col < b.col)
}

/// Distinct reported positions. Under the same hypotheses as
/// `lemma_resolve_complete`, the reported (row, column) pairs strictly
/// increase lexicographically: two reminder lines with identical text are
/// reported at distinct positions, in textual appearance order.
pub proof fn lemma_resolve_positions_distinct(
    contents: Seq<char>,
    targets: Seq<Seq<char>>,
    cursor: int,
    pos: Seq<int>,
)
    requires
        0 <= cursor,
        pos.len() == targets.len(),
        forall|i: int|
            0 <= i < targets.len() ==> occurs_at(contents, #[trigger] targets[i], pos[i]),
        forall|i: int| 0 <= i < targets.len() ==> cursor <= #[trigger] pos[i],
        forall|i: int, j: int| 0 <= i < j < targets.len() ==> pos[i] < pos[j],
    ensures
        resolve(contents, targets, cursor).len() == targets.len(),
        forall|i: int, j: int|
            0 <= i < j < targets.len() ==> #[trigger] position_lt(
                resolve(contents, targets, cursor)[i],
                resolve(contents, targets, cursor)[j],
            ),
{
    let occs = lemma_resolve_complete(contents, targets, cursor, pos);
    let r = resolve(contents, targets, cursor);
    assert forall|i: int, j: int| 0 <= i < j < targets.len() implies #[trigger] position_lt(
        r[i],
        r[j],
    ) by {
        assert(occs[i] < occs[j]);
        crate::position::lemma_position_lex(contents, occs[i], occs[j]);
    }
}

/// Completeness of a file's scan. When every reminder line of the file's
/// comments occurs in the file at strictly increasing positions, the scan
/// reports every one of them, exactly once, in order, with its text: no
/// duplicates and no omissions.
pub proof fn lemma_scan_complete(
    contents: Seq<char>,
    comments: Seq<Seq<char>>,
    pos: Seq<int>,
) -> (occs: Seq<int>)
    requires
        pos.len() == all_reminder_lines(comments).len(),
        forall|i: int|
            0 <= i < pos.len() ==> occurs_at(
                contents,
                #[trigger] all_reminder_lines(comments)[i],
                pos[i],
            ),
        forall|i: int| 0 <= i < pos.len() ==> 0 <= #[trigger] pos[i],
        forall|i: int, j: int| 0 <= i < j < pos.len() ==> pos[i] < pos[j],
    ensures
        scan_spec(contents, comments).len() == all_reminder_lines(comments).len(),
        occs.len() == all_reminder_lines(comments).len(),
        forall|i: int|
            0 <= i < occs.len() ==> scan_spec(contents, comments)[i] == reminder_model_at(
                contents,
                all_reminder_lines(comments)[i],
                #[trigger] occs[i],
            ),
        forall|i: int|
            0 <= i < occs.len() ==> occurs_at(
                contents,
                all_reminder_lines(comments)[i],
                #[trigger] occs[i],
            ),
        forall|i: int, j: int| 0 <= i < j < occs.len() ==> occs[i] < occs[j],
{
    lemma_resolve_complete(contents, all_reminder_lines(comments), 0, pos)
}

/// Distinct positions in a file's scan. Under the hypotheses of
/// `lemma_scan_complete`, reported positions strictly increase in
/// (row, column) order: two reminder lines with byte-identical text are
/// reported at distinct positions, in textual appearance order.
pub proof fn lemma_scan_positions_distinct(
    contents: Seq<char>,
    comments: Seq<Seq<char>>,
    pos: Seq<int>,
)
    requires
        pos.len() == all_reminder_lines(comments).len(),
        forall|i: int|
            0 <= i < pos.len() ==> occurs_at(
                contents,
                #[trigger] all_reminder_lines(comments)[i],
                pos[i],
            ),
        forall|i: int| 0 <= i < pos.len() ==> 0 <= #[trigger] pos[i],
        forall|i: int, j: int| 0 <= i < j < pos.len() ==> pos[i] < pos[j],
    ensures
        scan_spec(contents, comments).len() == all_reminder_lines(comments).len(),
        forall|i: int, j: int|
            0 <= i < j < scan_spec(contents, comments).len() ==> #[trigger] position_lt(
                scan_spec(contents, comments)[i],
                scan_spec(contents, comments)[j],
            ),
{
    lemma_resolve_positions_distinct(contents, all_reminder_lines(comments), 0, pos);
}

proof fn lemma_resolve_contents_from_targets(
    contents: Seq<char>,
    targets: Seq<Seq<char>>,
    cursor: int,
)
    ensures
        forall|k: int|
            0 <= k < resolve(contents, targets, cursor).len() ==> targets.contains(
                #[trigger] resolve(contents, targets, cursor)[k].contents,
            ),
    decreases targets.len(),
{
    if targets.len() > 0 {
        let r = resolve(contents, targets, cursor);
        if occurs_from(contents, targets[0], cursor) {
            let occ0 = first_occurrence(contents, targets[0], cursor);
            lemma_resolve_contents_from_targets(contents, targets.drop_first(), occ0 + 1);
            let rtail = resolve(contents, targets.drop_first(), occ0 + 1);
            assert forall|k: int| 0 <= k < r.len() implies targets.contains(
                #[trigger] r[k].contents,
            ) by {
                if k == 0 {
                    assert(targets[0] == r[0].contents);
                } else {
                    assert(r[k] == rtail[k - 1]);
                    assert(targets.drop_first().contains(rtail[k - 1].contents));
                    let m = choose|m: int|
                        0 <= m < targets.drop_first().len() && targets.drop_first()[m] == rtail[k
                            - 1].contents;
                    assert(targets[m + 1] == rtail[k - 1].contents);
                }
            }
        } else {
            lemma_resolve_contents_from_targets(contents, targets.drop_first(), cursor);
            let rtail = resolve(contents, targets.drop_first(), cursor);
            assert forall|k: int| 0 <= k < r.len() implies targets.contains(
                #[trigger] r[k].contents,
            ) by {
                assert(r[k] == rtail[k]);
                assert(targets.drop_first().contains(rtail[k].contents));
                let m = choose|m: int|
                    0 <= m < targets.drop_first().len() && targets.drop_first()[m]
                        == rtail[k].contents;
                assert(targets[m + 1] == rtail[k].contents);
            }
        }
    }
}

proof fn lemma_all_reminder_lines_are_reminders(comments: Seq<Seq<char>>)
    ensures
        forall|k: int|
            0 <= k < all_reminder_lines(comments).len() ==> is_reminder_line(
                #[trigger] all_reminder_lines(comments)[k],
            ),
    decreases comments.len(),
{
    let mapped = comments.map_values(|c: Seq<char>| reminder_lines(c));
    if comments.len() > 0 {
        lemma_all_reminder_lines_are_reminders(comments.drop_first());
        assert(comments.drop_first().map_values(|c: Seq<char>| reminder_lines(c))
            =~= mapped.drop_first());
        let head = mapped[0];
        let rest = mapped.drop_first().flatten();
        assert(mapped.flatten() == head + rest);
        assert forall|k: int| 0 <= k < (head + rest).len() implies is_reminder_line(
            #[trigger] (head + rest)[k],
        ) by {
            if k < head.len() {
                assert(head == lines_spec(trim_start_spec(comments[0])).filter(reminder_pred()));
                Seq::lemma_filter_pred(
                    lines_spec(trim_start_spec(comments[0])),
                    reminder_pred(),
                    k,
                );
                assert((head + rest)[k] == head[k]);
            } else {
                assert((head + rest)[k] == rest[k - head.len()]);
                assert(all_reminder_lines(comments.drop_first()) == rest);
            }
        }
    }
}

/// Only allow-listed reminder lines are reported: every reminder of a scan's
/// output has text that satisfies the reminder filter, so a line whose verb
/// is not allow-listed never appears.
pub proof fn lemma_only_reminder_lines_reported(contents: Seq<char>, comments: Seq<Seq<char>>)
    ensures
        forall|k: int|
            0 <= k < scan_spec(contents, comments).len() ==> is_reminder_line(
                #[trigger] scan_spec(contents, comments)[k].contents,
            ),
{
    lemma_all_reminder_lines_are_reminders(comments);
    lemma_resolve_contents_from_targets(contents, all_reminder_lines(comments), 0);
    let tgs = all_reminder_lines(comments);
    assert forall|k: int| 0 <= k < scan_spec(contents, comments).len() implies is_reminder_line(
        #[trigger] scan_spec(contents, comments)[k].contents,
    ) by {
        assert(tgs.contains(scan_spec(contents, comments)[k].contents));
        let m = choose|m: int|
            0 <= m < tgs.len() && tgs[m] == scan_spec(contents, comments)[k].contents;
        assert(is_reminder_line(tgs[m]));
    }
}

/// The scan is deterministic: its output is a function of the file's
/// contents and comment spans alone, so scanning an unmodified file twice
/// gives identical output.
pub proof fn lemma_scan_deterministic(
    contents: Seq<char>,
    comments: Seq<Seq<char>>,
    r1: Seq<ReminderModel>,
    r2: Seq<ReminderModel>,
)
    requires
        r1 == scan_spec(contents, comments),
        r2 == scan_spec(contents, comments),
    ensures
        r1 == r2,
{
}

fn clone_chars(v: &Vec<char>) -> (r: Vec<char>)
    ensures
        r@ == v@,
{
    let n = v.len();
    let mut r: Vec<char> = Vec::new();
    let mut i: usize = 0;
    while i < n
        invariant
            i <= n,
            n == v@.len(),
            r@ =~= v@.take(i as int),
        decreases n - i,
    {
        r.push(v[i]);
        i += 1;
    }
    proof {
        assert(v@.take(n as int) =~= v@);
    }
    r
}

/// Scan one file's comment spans against its contents and report every
/// reminder, each with the position of its occurrence, the cursor advancing
/// past each found occurrence.
pub fn scan_comments(contents: &Vec<char>, comments: &Vec<Vec<char>>) -> (r: Vec<Reminder>)
    requires
        contents@.len() < 0xFFFF_FFFFusize,
    ensures
        r@.map_values(|x: Reminder| x@) == scan_spec(contents@, comments.deep_view()),
{
    let ghost cviews = comments.deep_view();
    let mut out: Vec<Reminder> = Vec::new();
    let mut cursor: usize = 0;
    let ghost mut tgs: Seq<Seq<char>> = Seq::empty();
    let nc = comments.len();
    let mut ci: usize = 0;
    proof {
        assert(cviews.take(0) =~= Seq::<Seq<char>>::empty());
        assert(cviews.take(0).map_values(|c: Seq<char>| reminder_lines(c)) =~= Seq::<
            Seq<Seq<char>>,
        >::empty());
        assert(Seq::<Seq<Seq<char>>>::empty().flatten() =~= Seq::<Seq<char>>::empty());
        assert(all_reminder_lines(cviews.take(0)) =~= Seq::<Seq<char>>::empty());
        assert(out@.map_values(|x: Reminder| x@) =~= resolve(contents@, tgs, 0));
    }
    while ci < nc
        invariant
            ci <= nc,
            nc == comments@.len(),
            cviews == comments.deep_view(),
            contents@.len() < 0xFFFF_FFFFusize,
            cursor <= contents@.len() + 1,
            tgs == all_reminder_lines(cviews.take(ci as int)),
            out@.map_values(|x: Reminder| x@) == resolve(contents@, tgs, 0),
            cursor as int == cursor_after(contents@, tgs, 0),
        decreases nc - ci,
    {
        proof {
            assert(cviews[ci as int] =~= comments@[ci as int]@);
        }
        let trimmed = trim_start(&comments[ci]);
        let ls = split_lines(&trimmed);
        let ghost lviews = ls@.map_values(|l: Vec<char>| l@);
        let ghost base = tgs;
        let nl = ls.len();
        let mut li: usize = 0;
        proof {
            assert(lviews.take(0) =~= Seq::<Seq<char>>::empty());
            reveal(Seq::filter);
            assert(lviews.take(0).filter(reminder_pred()) =~= Seq::<Seq<char>>::empty());
            assert(tgs =~= base + lviews.take(0).filter(reminder_pred()));
        }
        while li < nl
            invariant
                li <= nl,
                nl == ls@.len(),
                lviews == ls@.map_values(|l: Vec<char>| l@),
                contents@.len() < 0xFFFF_FFFFusize,
                cursor <= contents@.len() + 1,
                tgs == base + lviews.take(li as int).filter(reminder_pred()),
                out@.map_values(|x: Reminder| x@) == resolve(contents@, tgs, 0),
                cursor as int == cursor_after(contents@, tgs, 0),
            decreases nl - li,
        {
            let line = &ls[li];
            if line_is_reminder(line) {
                let ghost pre_tgs = tgs;
                let ghost pre_out = out@.map_values(|x: Reminder| x@);
                proof {
                    lemma_resolve_append(contents@, pre_tgs, seq![line@], 0);
                    lemma_resolve_singleton(contents@, line@, cursor as int);
                }
                match find_from(contents, line, cursor) {
                    Some(occ) => {
                        proof {
                            assert(occurs_at(contents@, line@, occ as int));
                            assert(occurs_from(contents@, line@, cursor as int));
                            lemma_first_occurrence(contents@, line@, cursor as int);
                            lemma_first_occurrence_unique(
                                contents@,
                                line@,
                                cursor as int,
                                occ as int,
                                first_occurrence(contents@, line@, cursor as int),
                            );
                        }
                        let rc = get_row_and_column(contents, line, cursor);
                        let text = clone_chars(line);
                        out.push(Reminder { row: rc.0, col: rc.1, contents: text });
                        proof {
                            tgs = pre_tgs.push(line@);
                            assert(pre_tgs + seq![line@] =~= tgs);
                            let rm = reminder_model_at(contents@, line@, occ as int);
                            assert(out@.map_values(|x: Reminder| x@) =~= pre_out.push(rm));
                            assert(pre_out + seq![rm] =~= pre_out.push(rm));
                        }
                        cursor = occ + 1;
                    },
                    None => {
                        proof {
                            tgs = pre_tgs.push(line@);
                            assert(pre_tgs + seq![line@] =~= tgs);
                            assert(out@.map_values(|x: Reminder| x@) + Seq::<
                                ReminderModel,
                            >::empty() =~= out@.map_values(|x: Reminder| x@));
                        }
                    },
                }
                proof {
                    assert(lviews.take(li + 1) =~= lviews.take(li as int) + seq![lviews[li as int]]);
                    Seq::filter_distributes_over_add(
                        lviews.take(li as int),
                        seq![lviews[li as int]],
                        reminder_pred(),
                    );
                    lemma_filter_singleton(lviews[li as int]);
                    assert(lviews[li as int] == line@);
                    assert(tgs =~= base + lviews.take(li + 1).filter(reminder_pred()));
                }
            } else {
                proof {
                    assert(lviews.take(li + 1) =~= lviews.take(li as int) + seq![lviews[li as int]]);
                    Seq::filter_distributes_over_add(
                        lviews.take(li as int),
                        seq![lviews[li as int]],
                        reminder_pred(),
                    );
                    lemma_filter_singleton(lviews[li as int]);
                    assert(lviews[li as int] == line@);
                    assert(tgs =~= base + lviews.take(li + 1).filter(reminder_pred()));
                }
            }
            li += 1;
        }
        proof {
            assert(lviews.take(nl as int) =~= lviews);
            assert(lviews == lines_spec(trim_start_spec(cviews[ci as int])));
            cviews.lemma_flat_map_take_append(|c: Seq<char>| reminder_lines(c), ci as int);
            assert(tgs =~= all_reminder_lines(cviews.take(ci + 1)));
        }
        ci += 1;
    }
    proof {
        assert(cviews.take(nc as int) =~= cviews);
    }
    out
}

} // verus!
