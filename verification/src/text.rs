//! Line and word level text diffing.
//!
//! Two texts are compared line by line with `similar`. [`diff_lines`] reports whole
//! lines; [`diff_inline`] also splits each line into segments marking which words
//! actually changed.

use vstd::prelude::*;

use similar::{ChangeTag, TextDiff};

verus! {

#[derive(Clone, Copy, Debug, PartialEq, Eq, Structural)]
pub enum LineTag {
    Equal,
    Delete,
    Insert,
}

/// One row of a line diff.
#[derive(Clone, Debug, PartialEq, Eq)]
pub struct LineDiff {
    pub tag: LineTag,
    /// Zero-based line number in the old text, or none for an inserted line.
    pub old_line: Option<usize>,
    /// Zero-based line number in the new text, or none for a deleted line.
    pub new_line: Option<usize>,
    /// The line, without its `\n` or `\r\n`.
    pub value: String,
    /// The line had no trailing newline, which `value` alone cannot show.
    pub missing_newline: bool,
}

/// A part of a line in an inline diff.
#[derive(Clone, Debug, PartialEq, Eq)]
pub struct Segment {
    /// This part of the line changed.
    pub emphasized: bool,
    pub value: String,
}

/// One row of an inline diff.
#[derive(Clone, Debug, PartialEq, Eq)]
pub struct InlineLineDiff {
    pub tag: LineTag,
    /// See [`LineDiff::old_line`].
    pub old_line: Option<usize>,
    /// See [`LineDiff::new_line`].
    pub new_line: Option<usize>,
    /// The line split into changed and unchanged parts. Never empty strings, so a
    /// blank line has no segments at all.
    pub segments: Vec<Segment>,
    /// See [`LineDiff::missing_newline`].
    pub missing_newline: bool,
}

/// One change of a line diff: a line kept, deleted or inserted, its line number on
/// each side it appears on, and its text with its terminator.
pub struct LineChange {
    pub tag: LineTag,
    pub old_index: Option<usize>,
    pub new_index: Option<usize>,
    pub value: String,
}

/// A change of a line diff as plain values: tag, old and new line numbers, and text.
pub type ChangeView = (LineTag, Option<usize>, Option<usize>, Seq<char>);

pub open spec fn change_view(c: LineChange) -> ChangeView {
    (c.tag, c.old_index, c.new_index, c.value@)
}

/// The line has no trailing newline. A trailing `\r` alone is content, not a newline.
pub open spec fn lacks_newline(line: Seq<char>) -> bool {
    !(line.len() > 0 && line.last() == '\n')
}

/// Where a line's terminator characters may stand: a `\n` only at its end, a `\r`
/// only at its end or just before a final `\n`.
pub open spec fn line_shaped(line: Seq<char>) -> bool {
    forall|k: int| 0 <= k < line.len() ==> {
        &&& (#[trigger] line[k] == '\n' ==> k == line.len() - 1)
        &&& (line[k] == '\r' ==> k == line.len() - 1 || (k == line.len() - 2 && line[k + 1] == '\n'))
    }
}

/// Whether a line has no trailing newline.
pub fn missing_newline(line: &str) -> (res: bool)
    ensures
        res == lacks_newline(line@),
{
    let n = line.unicode_len();
    !(n > 0 && line.get_char(n - 1) == '\n')
}

/// The changes of `similar`'s line diff of two texts (`TextDiff::from_lines` with its
/// default configuration, walked with `iter_all_changes`), in document order.
pub uninterp spec fn line_changes_of(old: Seq<char>, new: Seq<char>) -> Seq<ChangeView>;

/// The line diff of two texts, change by change.
///
/// Trusted: `TextDiff::from_lines` with the default configuration has no deadline, so
/// its changes are a function of the two texts alone, named [`line_changes_of`]; each
/// change is converted field by field. Its lines are cut after each `\n`, `\r\n` or
/// lone `\r`, so a line holds those characters only as its terminator.
#[verifier::external_body]
fn line_changes(old: &str, new: &str) -> (res: Vec<LineChange>)
    ensures
        res@.map_values(|c: LineChange| change_view(c)) == line_changes_of(old@, new@),
        forall|i: int| 0 <= i < res@.len() ==> line_shaped((#[trigger] res@[i]).value@),
{
    let diff = TextDiff::from_lines(old, new);
    diff.iter_all_changes().map(|c| LineChange {
        tag: match c.tag() {
            ChangeTag::Equal => LineTag::Equal,
            ChangeTag::Delete => LineTag::Delete,
            ChangeTag::Insert => LineTag::Insert,
        },
        old_index: c.old_index(),
        new_index: c.new_index(),
        value: c.value().to_string(),
    }).collect()
}

/// One line of an inline diff: the line's change, with its text in parts, each
/// marked whether it changed.
pub struct InlineChange {
    pub tag: LineTag,
    pub old_index: Option<usize>,
    pub new_index: Option<usize>,
    pub values: Vec<(bool, String)>,
}

/// The parts' texts, joined.
pub open spec fn joined(values: Seq<(bool, String)>) -> Seq<char>
    decreases values.len(),
{
    if values.len() == 0 {
        Seq::empty()
    } else {
        joined(values.drop_last()) + values.last().1@
    }
}

/// An inline change describes the same line change: same tag and line numbers, and
/// its parts join into the line.
pub open spec fn inline_matches(c: InlineChange, lc: ChangeView) -> bool {
    &&& c.tag == lc.0
    &&& c.old_index == lc.1
    &&& c.new_index == lc.2
    &&& joined(c.values@) == lc.3
}

/// A line's parts are not empty, and none ends with a `\r` whose `\n` starts the next.
pub open spec fn parts_ok(values: Seq<(bool, String)>) -> bool {
    &&& forall|p: int| 0 <= p < values.len() ==> (#[trigger] values[p]).1@.len() > 0
    &&& forall|p: int| 0 <= p < values.len() - 1 ==> !((#[trigger] values[p]).1@.last() == '\r' && values[p + 1].1@[0] == '\n')
}

/// No change from `i` to `j`, both included, keeps a line.
pub open spec fn unbroken(changes: Seq<ChangeView>, i: int, j: int) -> bool {
    forall|k: int| (if i <= j { i <= k <= j } else { j <= k <= i }) ==> (#[trigger] changes[k]).0 != LineTag::Equal
}

/// Change `i` is not part of a replaced run of lines: it keeps its line, or the run of
/// changed lines around it only deletes or only inserts.
pub open spec fn plain_change(changes: Seq<ChangeView>, i: int) -> bool {
    ||| changes[i].0 == LineTag::Equal
    ||| forall|j: int| 0 <= j < changes.len() && unbroken(changes, i, j) ==> (#[trigger] changes[j]).0 == changes[i].0
}

/// The inline diff of two texts, line by line.
///
/// Trusted: `TextDiff::iter_all_inline_changes` yields, per operation of the line diff,
/// the changes `iter_changes` yields, each with its line split into parts that join
/// back into it. Equal, deleting and inserting operations keep each line whole, as one
/// part that is not emphasized; only a replacing operation, whose changes always
/// include both deleted and inserted lines, is split by a second diff, along words
/// and runs of whitespace, so a `\r\n` stays within one part and no part is empty. That
/// second diff runs under a 500 ms deadline, so nothing more is claimed of the split.
/// Lines are cut as [`line_changes`] cuts them.
#[verifier::external_body]
fn inline_changes(old: &str, new: &str) -> (res: Vec<InlineChange>)
    ensures
        res@.len() == line_changes_of(old@, new@).len(),
        forall|i: int| 0 <= i < res@.len() ==> inline_matches(#[trigger] res@[i], line_changes_of(old@, new@)[i]),
        forall|i: int| 0 <= i < res@.len() && plain_change(line_changes_of(old@, new@), i)
            ==> (#[trigger] res@[i]).values@.len() == 1 && !res@[i].values@[0].0,
        forall|i: int| 0 <= i < res@.len() ==> parts_ok((#[trigger] res@[i]).values@) && line_shaped(joined(res@[i].values@)),
{
    let diff = TextDiff::from_lines(old, new);
    diff.iter_all_inline_changes().map(|c| InlineChange {
        tag: match c.tag() {
            ChangeTag::Equal => LineTag::Equal,
            ChangeTag::Delete => LineTag::Delete,
            ChangeTag::Insert => LineTag::Insert,
        },
        old_index: c.old_index(),
        new_index: c.new_index(),
        values: c.iter_strings_lossy().map(|(e, v)| (e, v.into_owned())).collect(),
    }).collect()
}

/// A line with its terminator removed: a trailing `\n`, together with a `\r` just
/// before it. A `\r` that does not precede a `\n` is content and stays.
pub open spec fn stripped(line: Seq<char>) -> Seq<char> {
    if line.len() >= 1 && line.last() == '\n' {
        let rest = line.drop_last();
        if rest.len() >= 1 && rest.last() == '\r' {
            rest.drop_last()
        } else {
            rest
        }
    } else {
        line
    }
}

/// Strips the trailing line terminator of a line.
pub fn strip_line_ending(value: &str) -> (res: &str)
    ensures
        res@ == stripped(value@),
{
    let n = value.unicode_len();
    if n >= 1 && value.get_char(n - 1) == '\n' {
        if n >= 2 && value.get_char(n - 2) == '\r' {
            value.substring_char(0, n - 2)
        } else {
            value.substring_char(0, n - 1)
        }
    } else {
        value
    }
}

/// The row of a line change: the change with its line's terminator stripped.
pub open spec fn row_matches(row: LineDiff, c: ChangeView) -> bool {
    &&& row.tag == c.0
    &&& row.old_line == c.1
    &&& row.new_line == c.2
    &&& row.value@ == stripped(c.3)
    &&& row.missing_newline == lacks_newline(c.3)
}

/// The rows of some line changes, one per change, in order.
pub open spec fn rows_match(rows: Seq<LineDiff>, changes: Seq<ChangeView>) -> bool {
    &&& rows.len() == changes.len()
    &&& forall|i: int| 0 <= i < rows.len() ==> row_matches(#[trigger] rows[i], changes[i])
}

/// Turns line changes into rows, stripping each line's terminator.
pub fn line_rows(changes: &[LineChange]) -> (res: Vec<LineDiff>)
    ensures
        rows_match(res@, changes@.map_values(|c: LineChange| change_view(c))),
{
    let mut rows: Vec<LineDiff> = Vec::new();
    for i in 0..changes.len()
        invariant
            rows@.len() == i,
            forall|k: int| 0 <= k < i ==> row_matches(#[trigger] rows@[k], change_view(changes@[k])),
    {
        let c = &changes[i];
        rows.push(LineDiff {
            tag: c.tag,
            old_line: c.old_index,
            new_line: c.new_index,
            value: String::from_str(strip_line_ending(c.value.as_str())),
            missing_newline: missing_newline(c.value.as_str()),
        });
    }
    rows
}

/// Compares two texts line by line.
///
/// Each row covers one whole line. For word-level highlighting, use [`diff_inline`].
pub fn diff_lines(old: &str, new: &str) -> (res: Vec<LineDiff>)
    ensures
        rows_match(res@, line_changes_of(old@, new@)),
        forall|i: int, k: int| 0 <= i < res@.len() && 0 <= k < res@[i].value@.len() ==> #[trigger] res@[i].value@[k] != '\n',
{
    let changes = line_changes(old, new);
    let rows = line_rows(changes.as_slice());
    proof {
        assert forall|i: int, k: int| 0 <= i < rows@.len() && 0 <= k < rows@[i].value@.len() implies #[trigger] rows@[i].value@[k] != '\n' by {
            assert(changes@.map_values(|c: LineChange| change_view(c))[i] == change_view(changes@[i]));
            assert(row_matches(rows@[i], change_view(changes@[i])));
            lemma_stripped_plain(changes@[i].value@);
        }
    }
    rows
}

/// A line cut as `similar` cuts lines has no `\n` left once its terminator is stripped.
proof fn lemma_stripped_plain(line: Seq<char>)
    requires
        line_shaped(line),
    ensures
        forall|k: int| 0 <= k < stripped(line).len() ==> #[trigger] stripped(line)[k] != '\n',
{
    assert forall|k: int| 0 <= k < stripped(line).len() implies #[trigger] stripped(line)[k] != '\n' by {
        assert(stripped(line)[k] == line[k]);
    }
}

/// The segments of a line's parts: each part with its terminator stripped, the parts
/// left empty dropped.
pub open spec fn segments_of(values: Seq<(bool, String)>) -> Seq<(bool, Seq<char>)>
    decreases values.len(),
{
    if values.len() == 0 {
        Seq::empty()
    } else {
        let rest = segments_of(values.drop_last());
        let v = stripped(values.last().1@);
        if v.len() == 0 {
            rest
        } else {
            rest.push((values.last().0, v))
        }
    }
}

pub open spec fn segment_view(s: Segment) -> (bool, Seq<char>) {
    (s.emphasized, s.value@)
}

/// The row of an inline change: the change, its parts turned into segments.
pub open spec fn inline_row_matches(row: InlineLineDiff, c: InlineChange) -> bool {
    &&& row.tag == c.tag
    &&& row.old_line == c.old_index
    &&& row.new_line == c.new_index
    &&& row.segments@.map_values(|s: Segment| segment_view(s)) == segments_of(c.values@)
    &&& row.missing_newline == lacks_newline(joined(c.values@))
}

/// The parts' texts, joined into the line.
fn join_values(values: &Vec<(bool, String)>) -> (res: String)
    ensures
        res@ == joined(values@),
{
    let mut line = String::new();
    for i in 0..values.len()
        invariant
            line@ == joined(values@.take(i as int)),
    {
        let (_, value) = &values[i];
        line.append(value.as_str());
        proof {
            assert(values@.take(i + 1).drop_last() =~= values@.take(i as int));
        }
    }
    proof {
        assert(values@.take(values@.len() as int) =~= values@);
    }
    line
}

/// The segments of a line's parts, empty ones dropped.
fn segments(values: &Vec<(bool, String)>) -> (res: Vec<Segment>)
    ensures
        res@.map_values(|s: Segment| segment_view(s)) == segments_of(values@),
{
    let mut res: Vec<Segment> = Vec::new();
    for i in 0..values.len()
        invariant
            res@.map_values(|s: Segment| segment_view(s)) == segments_of(values@.take(i as int)),
    {
        let (emphasized, value) = &values[i];
        let v = strip_line_ending(value.as_str());
        let ghost before = res@;
        proof {
            assert(values@.take(i + 1).drop_last() =~= values@.take(i as int));
        }
        if v.unicode_len() > 0 {
            res.push(Segment { emphasized: *emphasized, value: String::from_str(v) });
            proof {
                assert(res@.map_values(|s: Segment| segment_view(s)) =~= before.map_values(|s: Segment| segment_view(s)).push((*emphasized, v@)));
            }
        }
    }
    proof {
        assert(values@.take(values@.len() as int) =~= values@);
    }
    res
}

/// Turns inline changes into rows, splitting each line into its non-empty segments.
pub fn inline_rows(changes: &[InlineChange]) -> (res: Vec<InlineLineDiff>)
    ensures
        res@.len() == changes@.len(),
        forall|i: int| 0 <= i < res@.len() ==> inline_row_matches(#[trigger] res@[i], changes@[i]),
{
    let mut rows: Vec<InlineLineDiff> = Vec::new();
    for i in 0..changes.len()
        invariant
            rows@.len() == i,
            forall|k: int| 0 <= k < i ==> inline_row_matches(#[trigger] rows@[k], changes@[k]),
    {
        let c = &changes[i];
        rows.push(InlineLineDiff {
            tag: c.tag,
            old_line: c.old_index,
            new_line: c.new_index,
            segments: segments(&c.values),
            missing_newline: missing_newline(join_values(&c.values).as_str()),
        });
    }
    rows
}

/// The segments' texts, joined.
pub open spec fn segments_text(segments: Seq<(bool, Seq<char>)>) -> Seq<char>
    decreases segments.len(),
{
    if segments.len() == 0 {
        Seq::empty()
    } else {
        segments_text(segments.drop_last()) + segments.last().1
    }
}

/// The segments of a line kept whole: the line without its terminator, not
/// emphasized, or none when that leaves it empty.
pub open spec fn whole_line_segments(line: Seq<char>) -> Seq<(bool, Seq<char>)> {
    if stripped(line).len() > 0 {
        seq![(false, stripped(line))]
    } else {
        Seq::empty()
    }
}

/// An inline row agrees with its line change: same tag and line numbers, a missing
/// newline exactly when the line has none, and its segments are the non-empty parts,
/// terminators stripped, of some split of the line, none of them empty.
pub open spec fn inline_row_of_change(row: InlineLineDiff, c: ChangeView) -> bool {
    &&& row.tag == c.0
    &&& row.old_line == c.1
    &&& row.new_line == c.2
    &&& row.missing_newline == lacks_newline(c.3)
    &&& exists|values: Seq<(bool, String)>| #[trigger] joined(values) == c.3
        && row.segments@.map_values(|s: Segment| segment_view(s)) == segments_of(values)
    &&& forall|k: int| 0 <= k < row.segments@.len() ==> (#[trigger] row.segments@[k]).value@.len() > 0
    &&& segments_text(row.segments@.map_values(|s: Segment| segment_view(s))) == stripped(c.3)
}

/// Like [`diff_lines`], but each line is also split into segments marking which parts
/// of it changed.
///
/// This runs a second diff inside every replaced run of lines, so it costs more than
/// [`diff_lines`]; prefer the plain line diff when highlighting is not needed.
pub fn diff_inline(old: &str, new: &str) -> (res: Vec<InlineLineDiff>)
    ensures
        res@.len() == line_changes_of(old@, new@).len(),
        forall|i: int| 0 <= i < res@.len() ==> inline_row_of_change(#[trigger] res@[i], line_changes_of(old@, new@)[i]),
        forall|i: int| 0 <= i < res@.len() && plain_change(line_changes_of(old@, new@), i)
            ==> (#[trigger] res@[i]).segments@.map_values(|s: Segment| segment_view(s)) == whole_line_segments(line_changes_of(old@, new@)[i].3),
{
    let changes = inline_changes(old, new);
    let rows = inline_rows(changes.as_slice());
    proof {
        assert forall|i: int| 0 <= i < rows@.len() implies inline_row_of_change(#[trigger] rows@[i], line_changes_of(old@, new@)[i]) by {
            assert(inline_row_matches(rows@[i], changes@[i]));
            assert(inline_matches(changes@[i], line_changes_of(old@, new@)[i]));
            lemma_segments_nonempty(changes@[i].values@);
            assert(joined(changes@[i].values@) == line_changes_of(old@, new@)[i].3);
            lemma_segments_text(changes@[i].values@);
            assert forall|k: int| 0 <= k < rows@[i].segments@.len() implies (#[trigger] rows@[i].segments@[k]).value@.len() > 0 by {
                assert(rows@[i].segments@.map_values(|s: Segment| segment_view(s))[k] == segment_view(rows@[i].segments@[k]));
            }
        }
        assert forall|i: int| 0 <= i < rows@.len() && plain_change(line_changes_of(old@, new@), i)
            implies (#[trigger] rows@[i]).segments@.map_values(|s: Segment| segment_view(s)) == whole_line_segments(line_changes_of(old@, new@)[i].3) by {
            assert(inline_row_matches(rows@[i], changes@[i]));
            assert(inline_matches(changes@[i], line_changes_of(old@, new@)[i]));
            lemma_whole_part(changes@[i].values@);
        }
    }
    rows
}

/// Parts with no `\n` in them are their own segments, empty ones dropped.
proof fn lemma_plain_parts(values: Seq<(bool, String)>)
    requires
        forall|k: int| 0 <= k < joined(values).len() ==> #[trigger] joined(values)[k] != '\n',
    ensures
        segments_text(segments_of(values)) == joined(values),
    decreases values.len(),
{
    if values.len() > 0 {
        let init = values.drop_last();
        let last = values.last().1@;
        let j0 = joined(init);
        assert(joined(values) == j0 + last);
        assert forall|k: int| 0 <= k < j0.len() implies #[trigger] j0[k] != '\n' by {
            assert(joined(values)[k] == j0[k]);
        }
        lemma_plain_parts(init);
        if last.len() > 0 {
            assert(joined(values)[j0.len() + last.len() - 1] == last.last());
        }
        assert(stripped(last) == last);
        if last.len() == 0 {
            assert(j0 + last =~= j0);
        } else {
            assert(segments_of(values) == segments_of(init).push((values.last().0, last)));
            assert(segments_of(init).push((values.last().0, last)).drop_last() =~= segments_of(init));
        }
    }
}

/// The segments of a line's parts join into the line without its terminator.
proof fn lemma_segments_text(values: Seq<(bool, String)>)
    requires
        parts_ok(values),
        line_shaped(joined(values)),
    ensures
        segments_text(segments_of(values)) == stripped(joined(values)),
{
    if values.len() > 0 {
        lemma_last_part(values);
    }
}

/// The step of [`lemma_segments_text`] for a line of at least one part.
proof fn lemma_last_part(values: Seq<(bool, String)>)
    requires
        values.len() > 0,
        parts_ok(values),
        line_shaped(joined(values)),
    ensures
        segments_text(segments_of(values)) == stripped(joined(values)),
{
    let init = values.drop_last();
    let last = values.last().1@;
    let j0 = joined(init);
    let line = joined(values);
    assert(line == j0 + last);
    assert(last.len() > 0);
    assert forall|k: int| 0 <= k < j0.len() implies #[trigger] j0[k] != '\n' by {
        assert(line[k] == j0[k]);
    }
    lemma_plain_parts(init);
    assert(line.last() == last.last());
    if last.last() == '\n' && last.len() == 1 && j0.len() > 0 {
        let q = init.len() - 1;
        assert(init[q] == values[q]);
        assert(init[q].1@.len() > 0);
        assert(j0 == joined(init.drop_last()) + init[q].1@);
        assert(j0.last() == init[q].1@.last());
        assert(values[q + 1].1@[0] == '\n');
        assert(j0.last() != '\r');
    }
    assert(stripped(line) =~= j0 + stripped(last));
    if stripped(last).len() == 0 {
        assert(segments_of(values) == segments_of(init));
        assert(j0 + stripped(last) =~= j0);
    } else {
        assert(segments_of(values) == segments_of(init).push((values.last().0, stripped(last))));
        assert(segments_of(init).push((values.last().0, stripped(last))).drop_last() =~= segments_of(init));
    }
}

/// A line kept as one part that is not emphasized gives the whole line's segments.
proof fn lemma_whole_part(values: Seq<(bool, String)>)
    requires
        values.len() == 1,
        !values[0].0,
    ensures
        segments_of(values) == whole_line_segments(joined(values)),
{
    assert(values.drop_last().len() == 0);
    assert(joined(values) == joined(values.drop_last()) + values[0].1@);
    assert(joined(values) =~= values[0].1@);
    assert(segments_of(values.drop_last()) =~= Seq::<(bool, Seq<char>)>::empty());
}

/// Segments are never empty.
pub proof fn lemma_segments_nonempty(values: Seq<(bool, String)>)
    ensures
        forall|k: int| 0 <= k < segments_of(values).len() ==> (#[trigger] segments_of(values)[k]).1.len() > 0,
    decreases values.len(),
{
    if values.len() > 0 {
        let rest = segments_of(values.drop_last());
        lemma_segments_nonempty(values.drop_last());
        assert forall|k: int| 0 <= k < segments_of(values).len() implies (#[trigger] segments_of(values)[k]).1.len() > 0 by {
            if k < rest.len() {
                assert(segments_of(values)[k] == rest[k]);
            }
        }
    }
}

/// The line diff and the inline diff of the same texts line up row by row: same
/// number of rows, and each pair of rows has the same tag, line numbers and
/// terminator.
pub proof fn lemma_inline_agrees(lines: Seq<LineDiff>, inline: Seq<InlineLineDiff>, changes: Seq<ChangeView>)
    requires
        rows_match(lines, changes),
        inline.len() == changes.len(),
        forall|i: int| 0 <= i < inline.len() ==> inline_row_of_change(#[trigger] inline[i], changes[i]),
    ensures
        lines.len() == inline.len(),
        forall|i: int| 0 <= i < lines.len() ==> {
            &&& (#[trigger] lines[i]).tag == inline[i].tag
            &&& lines[i].old_line == inline[i].old_line
            &&& lines[i].new_line == inline[i].new_line
            &&& lines[i].missing_newline == inline[i].missing_newline
        },
{
    assert forall|i: int| 0 <= i < lines.len() implies {
        &&& (#[trigger] lines[i]).tag == inline[i].tag
        &&& lines[i].old_line == inline[i].old_line
        &&& lines[i].new_line == inline[i].new_line
        &&& lines[i].missing_newline == inline[i].missing_newline
    } by {
        assert(row_matches(lines[i], changes[i]));
        assert(inline_row_of_change(inline[i], changes[i]));
    }
}

} // verus!
