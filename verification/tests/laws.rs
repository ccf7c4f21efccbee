use cb_text::history::HistoryTree;
use cb_text::piece_table::content::Source;
use cb_text::piece_table::span::Span;
use cb_text::piece_table::{Change, PieceTable, SpanAddress};
use unicode_segmentation::UnicodeSegmentation;

fn clusters_of(text: &str) -> Vec<String> {
    UnicodeSegmentation::graphemes(text, true)
        .map(|cluster| cluster.to_string())
        .collect()
}

fn plainly_replace(units: &mut Vec<String>, position: usize, length: usize, text: &str) {
    let from = position.min(units.len());
    let to = position.saturating_add(length).min(units.len());
    units.splice(from..to, clusters_of(text));
}

#[test]
fn edits_follow_the_plain_model() {
    let start = "0\r\n12\n345e\u{301}";
    let mut pt = PieceTable::from(start);
    let mut units = clusters_of(start);
    let edits: Vec<(usize, usize, &str)> = vec![
        (1, 0, "ab"),
        (0, 2, ""),
        (3, 4, "x\ny"),
        (100, 5, "end"),
        (2, 100, "\r\n"),
        (0, 0, ""),
        (1, 1, "\u{1F1F7}\u{1F1FA}"),
        (4, 0, "tail"),
        (0, usize::MAX, "all"),
        (usize::MAX, usize::MAX, "!"),
    ];

    for (position, length, text) in edits {
        pt.replace(position, length, text);
        plainly_replace(&mut units, position, length, text);
        assert_eq!(pt.to_string(), units.concat());
        assert_eq!(pt.len(), units.len());
    }
    assert_eq!(pt.to_string(), "all!");
}

#[test]
fn edits_follow_the_plain_model_with_extend_spans() {
    let mut pt = PieceTable::from("one");
    pt.set_extend_spans(true);
    let mut units = clusters_of("one");
    let edits: Vec<(usize, usize, &str)> = vec![
        (3, 0, " two"),
        (7, 0, " three"),
        (1, 0, "X"),
        (14, 0, " four"),
        (19, 0, "!"),
        (2, 3, ""),
        (16, 0, "?"),
    ];

    for (position, length, text) in edits {
        pt.replace(position, length, text);
        plainly_replace(&mut units, position, length, text);
        assert_eq!(pt.to_string(), units.concat());
    }
    assert_eq!(pt.to_string(), "oXtwo three four?!");
}

#[test]
fn revert_then_apply_restores_the_document() {
    let mut pt = PieceTable::from("0123\n4567");
    let mut changes: Vec<(Change, String, String)> = Vec::new();
    let edits: Vec<(usize, usize, &str)> = vec![
        (2, 0, "ab"),
        (0, 3, ""),
        (4, 2, "x\r\ny"),
        (50, 0, "z"),
        (1, 50, ""),
    ];

    for (position, length, text) in edits {
        let before = pt.to_string();
        let change = pt.replace(position, length, text);
        let after = pt.to_string();

        pt.revert_change(&change);
        assert_eq!(pt.to_string(), before);

        pt.apply_change(&change);
        assert_eq!(pt.to_string(), after);

        changes.push((change, before, after));
    }

    while let Some((change, before, _)) = changes.pop() {
        pt.revert_change(&change);
        assert_eq!(pt.to_string(), before);
    }
    assert_eq!(pt.to_string(), "0123\n4567");
}

#[test]
fn reads_leave_the_table_alone() {
    let mut pt = PieceTable::from("012\n345");
    pt.insert(2, "ab\r\n");
    pt.remove(0, 1);
    let spans = pt.spans().clone();

    let first = pt.to_string();
    let second = pt.to_string();
    assert_eq!(first, "1ab\r\n2\n345");
    assert_eq!(first, second);

    let first = pt.range_as_string(1, 4);
    let second = pt.range_as_string(1, 4);
    assert_eq!(first, "ab\r\n2");
    assert_eq!(first, second);

    assert_eq!(pt.spans(), &spans);
    assert_eq!(pt.to_string(), "1ab\r\n2\n345");
}

#[test]
fn consecutive_appends_extend_one_span() {
    let mut pt = PieceTable::from("012");
    pt.set_extend_spans(true);
    let pieces = ["3", "45", "6\n7", "", "89"];

    for piece in pieces {
        pt.append(piece);
    }

    assert_eq!(pt.to_string(), "0123456\n789");
    assert_eq!(
        pt.spans(),
        &vec![
            Span {
                source: Source::Original,
                position: 0,
                length: 3,
                line_breaks: None
            },
            Span {
                source: Source::Added,
                position: 0,
                length: 8,
                line_breaks: Some(vec![4])
            },
            Span::new_sentinel(),
        ]
    );
}

#[test]
fn consecutive_appends_without_extend_spans_add_spans() {
    let mut pt = PieceTable::from("012");

    pt.append("3");
    pt.append("45");
    pt.append("");

    assert_eq!(pt.to_string(), "012345");
    assert_eq!(pt.spans().len(), 4);
}

#[test]
fn only_the_span_that_ends_the_added_buffer_is_extended() {
    let mut pt = PieceTable::from("ab");
    pt.set_extend_spans(true);

    pt.insert(2, "cd");
    pt.insert(1, "X");
    assert_eq!(pt.to_string(), "aXbcd");

    let change = pt.append("Y");
    assert_eq!(pt.to_string(), "aXbcdY");
    assert_eq!(
        change,
        Change {
            index: 4,
            new: vec![Span {
                source: Source::Added,
                position: 3,
                length: 1,
                line_breaks: None
            }],
            old: vec![]
        }
    );

    let change = pt.append("Z");
    assert_eq!(pt.to_string(), "aXbcdYZ");
    assert_eq!(
        change,
        Change {
            index: 4,
            new: vec![Span {
                source: Source::Added,
                position: 3,
                length: 2,
                line_breaks: None
            }],
            old: vec![Span {
                source: Source::Added,
                position: 3,
                length: 1,
                line_breaks: None
            }]
        }
    );
}

#[test]
fn extending_joins_the_recorded_terminators() {
    let mut pt = PieceTable::from("");
    pt.set_extend_spans(true);

    pt.append("a\nb");
    let change = pt.append("c\r\nd");
    assert_eq!(
        change.new,
        vec![Span {
            source: Source::Added,
            position: 0,
            length: 6,
            line_breaks: Some(vec![1, 4])
        }]
    );

    let lines: Vec<String> = pt.lines().collect();
    assert_eq!(lines, vec!["a", "bc", "d"]);
}

#[test]
fn addresses_name_span_and_offset() {
    let mut pt = PieceTable::from("012");
    pt.insert(3, "345");

    assert_eq!(pt.span_address(0), SpanAddress { index: 0, offset: 0 });
    assert_eq!(pt.span_address(2), SpanAddress { index: 0, offset: 2 });
    assert_eq!(pt.span_address(3), SpanAddress { index: 1, offset: 0 });
    assert_eq!(pt.span_address(5), SpanAddress { index: 1, offset: 2 });
    assert_eq!(pt.span_address(6), SpanAddress { index: 2, offset: 0 });
    assert_eq!(pt.span_address(100), SpanAddress { index: 2, offset: 0 });
    assert_eq!(
        pt.span_address(usize::MAX),
        SpanAddress { index: 2, offset: 0 }
    );
    assert_eq!(pt.len(), 6);
}

#[test]
fn undo_then_edit_branches() {
    let mut history: HistoryTree<u32> = HistoryTree::new(0);

    history.push(1);
    history.push(2);
    assert_eq!(history.back(), Some(2));
    assert_eq!(history.current_payload(), 1);
    assert_eq!(history.branch_ids(), vec![2]);

    history.push(3);
    assert_eq!(history.back(), Some(3));
    assert_eq!(history.branch_ids(), vec![2, 3]);

    assert_eq!(history.forward(), Some(3));
    assert_eq!(history.back(), Some(3));
    assert_eq!(history.forward_branch(2), Some(2));
    assert_eq!(history.current_payload(), 2);
}

#[test]
fn history_answers_absence_at_its_ends() {
    let mut history: HistoryTree<u32> = HistoryTree::new(7);

    assert_eq!(history.back(), None);
    assert_eq!(history.forward(), None);
    assert_eq!(history.forward_branch(0), None);
    assert_eq!(history.forward_branch(1), None);
    assert_eq!(history.current_payload(), 7);
    assert_eq!(history.branch_ids(), Vec::<usize>::new());
    assert_eq!(history.branch_payload(0), Some(7));
    assert_eq!(history.branch_payload(1), None);

    history.push(8);
    history.push(9);
    assert_eq!(history.back(), Some(9));
    assert_eq!(history.back(), Some(8));
    assert_eq!(history.forward_branch(2), None);
    assert_eq!(history.forward_branch(0), None);
    assert_eq!(history.current_payload(), 7);
    assert_eq!(history.branch_payload(2), Some(9));
    assert_eq!(history.forward_branch(1), Some(8));
}

#[test]
fn history_drives_undo_and_redo() {
    let mut pt = PieceTable::from("abc");
    let root = pt.replace(0, 0, "");
    let mut history = HistoryTree::new(root);

    history.push(pt.insert(3, "def"));
    history.push(pt.remove(0, 2));
    assert_eq!(pt.to_string(), "cdef");

    let change = history.back().unwrap();
    pt.revert_change(&change);
    assert_eq!(pt.to_string(), "abcdef");

    let change = history.back().unwrap();
    pt.revert_change(&change);
    assert_eq!(pt.to_string(), "abc");
    assert_eq!(history.back(), None);

    let change = history.forward().unwrap();
    pt.apply_change(&change);
    assert_eq!(pt.to_string(), "abcdef");

    let change = history.forward().unwrap();
    pt.apply_change(&change);
    assert_eq!(pt.to_string(), "cdef");
    assert_eq!(history.forward(), None);
}
