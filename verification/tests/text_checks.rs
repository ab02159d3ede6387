use comparer::text::{diff_inline, diff_lines, line_rows, strip_line_ending, LineChange, LineTag, Segment};

#[test]
fn only_a_line_terminator_is_stripped() {
    assert_eq!(strip_line_ending("a\n"), "a");
    assert_eq!(strip_line_ending("a\r\n"), "a");
    assert_eq!(strip_line_ending("a\r"), "a\r");
    assert_eq!(strip_line_ending("a\n\n"), "a\n");
    assert_eq!(strip_line_ending("\r\n"), "");
    assert_eq!(strip_line_ending(""), "");
}

#[test]
fn rows_keep_each_change_and_strip_its_line() {
    let changes = vec![
        LineChange { tag: LineTag::Equal, old_index: Some(0), new_index: Some(0), value: "x\r\n".to_string() },
        LineChange { tag: LineTag::Insert, old_index: None, new_index: Some(1), value: "y".to_string() },
    ];
    let rows = line_rows(&changes);

    assert_eq!(rows.len(), 2);
    assert_eq!((rows[0].tag, rows[0].old_line, rows[0].new_line, rows[0].value.as_str()), (LineTag::Equal, Some(0), Some(0), "x"));
    assert_eq!((rows[1].tag, rows[1].value.as_str(), rows[1].missing_newline), (LineTag::Insert, "y", true));
}

#[test]
fn inline_rows_line_up_with_line_rows() {
    let (old, new) = ("one\ntwo words\nthree\n", "one\ntwo other words\nthree\nfour");
    let lines = diff_lines(old, new);
    let inline = diff_inline(old, new);

    assert_eq!(lines.len(), inline.len());
    for (line, row) in lines.iter().zip(&inline) {
        assert_eq!((line.tag, line.old_line, line.new_line, line.missing_newline), (row.tag, row.old_line, row.new_line, row.missing_newline));
        let joined: String = row.segments.iter().map(|segment| segment.value.as_str()).collect();
        assert_eq!(joined, line.value);
    }
    assert!(lines.last().unwrap().missing_newline);
}

#[test]
fn a_trailing_carriage_return_is_no_newline() {
    let lines = diff_lines("a\r", "b\r");
    assert!(lines.iter().all(|line| line.missing_newline));
    let inline = diff_inline("a\r", "b\r");
    assert!(inline.iter().all(|line| line.missing_newline));
    assert!(!diff_lines("a\r\n", "b\n").iter().any(|line| line.missing_newline));
}

#[test]
fn kept_lines_are_one_plain_segment() {
    let inline = diff_inline("same words\n\nkept\r\nold\n", "same words\n\nkept\r\n");
    assert_eq!(inline.len(), 4);
    assert_eq!(inline[0].segments, vec![Segment { emphasized: false, value: "same words".to_string() }]);
    assert!(inline[1].segments.is_empty());
    assert_eq!(inline[2].segments, vec![Segment { emphasized: false, value: "kept".to_string() }]);
    assert_eq!((inline[3].tag, inline[3].segments.clone()), (LineTag::Delete, vec![Segment { emphasized: false, value: "old".to_string() }]));
}
