use cb_text::buffer::Buffer;
use cb_text::piece_table::content::Source;
use cb_text::piece_table::match_iter::{Match, MatchIter};
use cb_text::piece_table::span::Span;
use cb_text::piece_table::{Change, PieceTable};
use cb_text::text::Text;
use regex::Regex;

#[test]
fn empty_replace_between_spans_changes_nothing() {
    let mut pt = PieceTable::from("012");

    let change = pt.replace(3, 0, "");
    assert_eq!(pt.to_string(), "012");
    assert_eq!(
        change,
        Change {
            index: 1,
            new: vec![],
            old: vec![]
        }
    );

    let change = pt.replace(0, 0, "");
    assert_eq!(pt.to_string(), "012");
    assert_eq!(
        change,
        Change {
            index: 0,
            new: vec![],
            old: vec![]
        }
    );
    assert_eq!(pt.spans().len(), 2);
}

#[test]
fn empty_replace_inside_a_span_changes_nothing() {
    let mut pt = PieceTable::from("012");

    let change = pt.replace(1, 0, "");
    assert_eq!(pt.to_string(), "012");
    assert_eq!(
        change,
        Change {
            index: 0,
            new: vec![],
            old: vec![]
        }
    );
    assert_eq!(pt.spans().len(), 2);

    let change = pt.insert(2, "");
    assert_eq!(
        change,
        Change {
            index: 0,
            new: vec![],
            old: vec![]
        }
    );
    assert_eq!(pt.spans().len(), 2);
}

#[test]
fn empty_replace_changes_nothing_with_extend_spans() {
    let mut pt = PieceTable::from("01");
    pt.set_extend_spans(true);
    pt.append("23");
    let spans = pt.spans().clone();

    let change = pt.append("");
    assert_eq!(
        change,
        Change {
            index: 2,
            new: vec![],
            old: vec![]
        }
    );
    let change = pt.replace(3, 0, "");
    assert_eq!(
        change,
        Change {
            index: 1,
            new: vec![],
            old: vec![]
        }
    );
    assert_eq!(pt.spans(), &spans);
    assert_eq!(pt.to_string(), "0123");
}

#[test]
fn empty_document_takes_text() {
    let mut pt = PieceTable::from("");
    assert_eq!(pt.to_string(), "");
    assert_eq!(pt.len(), 0);
    assert_eq!(pt.range_as_string(0, 10), "");

    let change = pt.remove(0, 5);
    assert_eq!(
        change,
        Change {
            index: 1,
            new: vec![],
            old: vec![]
        }
    );

    let change = pt.insert(0, "a");
    assert_eq!(pt.to_string(), "a");
    assert_eq!(
        change,
        Change {
            index: 1,
            new: vec![Span {
                source: Source::Added,
                position: 0,
                length: 1,
                line_breaks: None
            }],
            old: vec![]
        }
    );
}

#[test]
fn ranges_are_clamped_without_overflow() {
    let mut pt = PieceTable::from("0123");

    pt.remove(1, usize::MAX);
    assert_eq!(pt.to_string(), "0");

    pt.replace(usize::MAX, usize::MAX, "1");
    assert_eq!(pt.to_string(), "01");

    pt.insert(usize::MAX, "2");
    assert_eq!(pt.to_string(), "012");

    assert_eq!(pt.range_as_string(1, usize::MAX), "12");
    assert_eq!(pt.range_as_string(usize::MAX, usize::MAX), "");
    assert_eq!(pt.range_as_string(2, 0), "");
}

#[test]
fn range_inside_one_span() {
    let pt = PieceTable::from("012345678");

    assert_eq!(pt.range_as_string(2, 3), "234");
    assert_eq!(pt.range_as_string(8, 1), "8");
    assert_eq!(pt.range_as_string(0, 9), "012345678");
}

#[test]
fn from_owned_text() {
    let pt = PieceTable::from(String::from("0\n1"));
    assert_eq!(pt.to_string(), "0\n1");
    assert_eq!(
        pt.spans(),
        &vec![
            Span {
                source: Source::Original,
                position: 0,
                length: 3,
                line_breaks: Some(vec![1])
            },
            Span::new_sentinel(),
        ]
    );

    let pt = PieceTable::new(String::from("xy"));
    assert_eq!(pt.to_string(), "xy");
}

#[test]
fn lines_end_at_terminators() {
    let lines: Vec<String> = PieceTable::from("").lines().collect();
    assert_eq!(lines, vec![""]);

    let lines: Vec<String> = PieceTable::from("a").lines().collect();
    assert_eq!(lines, vec!["a"]);

    let lines: Vec<String> = PieceTable::from("a\n").lines().collect();
    assert_eq!(lines, vec!["a", ""]);

    let lines: Vec<String> = PieceTable::from("ab\n").lines().collect();
    assert_eq!(lines, vec!["ab", ""]);

    let lines: Vec<String> = PieceTable::from("\n").lines().collect();
    assert_eq!(lines, vec!["", ""]);

    let lines: Vec<String> = PieceTable::from("ab\n\r\n").lines().collect();
    assert_eq!(lines, vec!["ab", "", ""]);

    let lines: Vec<String> = PieceTable::from("a\r\nb\nc").lines().collect();
    assert_eq!(lines, vec!["a", "b", "c"]);

    let lines: Vec<String> = PieceTable::from("a\rb").lines().collect();
    assert_eq!(lines, vec!["a\rb"]);
}

#[test]
fn the_last_line_is_yielded_once() {
    let pt = PieceTable::from("a\n");
    let mut lines = pt.lines();
    assert_eq!(lines.next(), Some(String::from("a")));
    assert_eq!(lines.next(), Some(String::new()));
    assert_eq!(lines.next(), None);
    assert_eq!(lines.next(), None);

    let pt = PieceTable::from("");
    let mut lines = pt.lines();
    assert_eq!(lines.next(), Some(String::new()));
    assert_eq!(lines.next(), None);

    let pt = PieceTable::from_clusters(vec![String::from("a"), String::from("\n")]);
    assert_eq!(pt.lines().nth(1), Some(String::new()));
    assert_eq!(pt.lines().nth(2), None);
    let rest: Vec<String> = pt.lines().skip(1).collect();
    assert_eq!(rest, vec![""]);
    let rest: Vec<String> = pt.lines().skip(2).collect();
    assert_eq!(rest, Vec::<String>::new());

    let mut pt = PieceTable::from("a");
    pt.append("\n");
    let lines: Vec<String> = pt.lines().collect();
    assert_eq!(lines, vec!["a", ""]);
}

#[test]
fn lines_run_across_spans() {
    let mut pt = PieceTable::from("ab");
    pt.append("cd\ne");
    pt.append("f");
    pt.insert(1, "\n");

    assert_eq!(pt.to_string(), "a\nbcd\nef");
    let lines: Vec<String> = pt.lines().collect();
    assert_eq!(lines, vec!["a", "bcd", "ef"]);
}

#[test]
fn lines_one_by_one() {
    let pt = PieceTable::from("a\nb\nc");
    let mut lines = pt.lines();

    assert_eq!(lines.next(), Some(String::from("a")));
    assert_eq!(lines.next(), Some(String::from("b")));
    assert_eq!(lines.next(), Some(String::from("c")));
    assert_eq!(lines.next(), None);
    assert_eq!(lines.next(), None);
}

#[test]
fn nth_line_skips_lines() {
    let pt = PieceTable::from("a\nb\nc");

    assert_eq!(pt.lines().nth(0), Some(String::from("a")));
    assert_eq!(pt.lines().nth(1), Some(String::from("b")));
    assert_eq!(pt.lines().nth(2), Some(String::from("c")));
    assert_eq!(pt.lines().nth(3), None);
    assert_eq!(pt.lines().nth(usize::MAX), None);

    let mut lines = pt.lines();
    assert_eq!(lines.nth(1), Some(String::from("b")));
    assert_eq!(lines.nth(0), Some(String::from("c")));
    assert_eq!(lines.nth(0), None);

    let rest: Vec<String> = pt.lines().skip(1).collect();
    assert_eq!(rest, vec!["b", "c"]);
    let rest: Vec<String> = pt.lines().skip(0).collect();
    assert_eq!(rest, vec!["a", "b", "c"]);
    let rest: Vec<String> = pt.lines().skip(7).collect();
    assert_eq!(rest, Vec::<String>::new());
}

#[test]
fn a_terminator_at_the_cut_is_not_recorded() {
    let mut pt = PieceTable::from("a\nb");

    let change = pt.remove(0, 1);
    assert_eq!(pt.to_string(), "\nb");
    assert_eq!(
        change.new,
        vec![Span {
            source: Source::Original,
            position: 1,
            length: 2,
            line_breaks: None
        }]
    );

    let lines: Vec<String> = pt.lines().collect();
    assert_eq!(lines, vec!["\nb"]);
}

#[test]
fn matches_are_counted_in_clusters() {
    let pt = PieceTable::from("e\u{301}\r\nx y");

    let matches: Vec<Match> = pt.find_matches(0, Regex::new("[xy]").unwrap()).collect();
    assert_eq!(
        matches,
        vec![
            Match {
                position: 2,
                length: 1
            },
            Match {
                position: 4,
                length: 1
            },
        ]
    );

    let matches: Vec<Match> = pt
        .find_matches(0, Regex::new("e\u{301}\r\nx").unwrap())
        .collect();
    assert_eq!(
        matches,
        vec![Match {
            position: 0,
            length: 3
        }]
    );
}

#[test]
fn matches_start_at_the_given_cluster() {
    let pt = PieceTable::from("ab ab");

    let matches: Vec<Match> = pt.find_matches(1, Regex::new("ab").unwrap()).collect();
    assert_eq!(
        matches,
        vec![Match {
            position: 3,
            length: 2
        }]
    );

    let matches: Vec<Match> = pt.find_matches(3, Regex::new("^ab").unwrap()).collect();
    assert_eq!(
        matches,
        vec![Match {
            position: 3,
            length: 2
        }]
    );

    let matches: Vec<Match> = pt.find_matches(5, Regex::new("\\w+").unwrap()).collect();
    assert_eq!(matches, vec![]);

    let matches: Vec<Match> = pt.find_matches(100, Regex::new("\\w+").unwrap()).collect();
    assert_eq!(matches, vec![]);
}

#[test]
fn matches_run_across_spans() {
    let mut pt = PieceTable::from("ab");
    pt.append("cd ef");
    pt.insert(1, "X");

    let matches: Vec<Match> = pt.find_matches(0, Regex::new("\\w+").unwrap()).collect();
    assert_eq!(
        matches,
        vec![
            Match {
                position: 0,
                length: 5
            },
            Match {
                position: 6,
                length: 2
            },
        ]
    );
}

#[test]
fn empty_matches_move_the_search_on() {
    let pt = PieceTable::from("ab");

    let matches: Vec<Match> = pt.find_matches(0, Regex::new("x*").unwrap()).collect();
    assert_eq!(
        matches,
        vec![
            Match {
                position: 0,
                length: 0
            },
            Match {
                position: 1,
                length: 0
            },
            Match {
                position: 2,
                length: 0
            },
        ]
    );

    let mut search = pt.find_matches(2, Regex::new("").unwrap());
    assert_eq!(
        search.next(),
        Some(Match {
            position: 2,
            length: 0
        })
    );
    assert_eq!(search.next(), None);
    assert_eq!(search.next(), None);
}

#[test]
fn a_reported_match_is_taken_in_clusters() {
    let mut search = MatchIter::new(
        String::from("e\u{301}"),
        String::from("0\r\n12\n345"),
        Regex::new("\\d+").unwrap(),
    );

    assert_eq!(
        search.take_match(Some((3, 5))),
        Some(Match {
            position: 3,
            length: 2
        })
    );
    assert_eq!(
        search.take_match(Some((1, 1))),
        Some(Match {
            position: 6,
            length: 0
        })
    );
    assert_eq!(
        search.next(),
        Some(Match {
            position: 7,
            length: 2
        })
    );
    assert_eq!(search.take_match(None), None);
    assert_eq!(search.next(), None);
}

#[test]
fn text_starts_with_a_root_change() {
    let text = Text::new("0\n1");

    assert_eq!(text.piece_table().to_string(), "0\n1");
    assert_eq!(
        text.history().current_payload(),
        Change {
            index: 0,
            new: vec![],
            old: vec![]
        }
    );
    assert_eq!(text.history().branch_ids(), Vec::<usize>::new());
    assert_eq!(text.history().branch_payload(1), None);
}

#[test]
fn buffer_starts_with_one_cursor() {
    let buffer = Buffer::new("");

    assert_eq!(buffer.text().piece_table().to_string(), "");
    assert!(!buffer.has_file());
    assert_eq!(buffer.cursor_list().len(), 1);
    assert_eq!(buffer.cursor_list()[0].position, 0);
    assert_eq!(buffer.cursor_list()[0].length, 0);
    assert_eq!(
        buffer.text().history().current_payload(),
        Change {
            index: 1,
            new: vec![],
            old: vec![]
        }
    );
}

#[test]
fn changes_are_checked_before_use() {
    let mut pt = PieceTable::from("0\n2");
    let change = pt.append("345");

    assert!(pt.admits_reverse(&change));
    assert!(pt.admits(&change));

    let sentinel = Span::new_sentinel();
    let out_of_range = Change {
        index: 4,
        new: vec![],
        old: vec![],
    };
    assert!(!pt.admits(&out_of_range));
    assert!(!pt.admits_reverse(&out_of_range));

    let too_many = Change {
        index: 1,
        new: vec![],
        old: vec![sentinel.clone(), sentinel.clone(), sentinel.clone()],
    };
    assert!(!pt.admits(&too_many));
    assert!(pt.admits_reverse(&too_many));

    let takes_everything = Change {
        index: 0,
        new: vec![],
        old: vec![sentinel.clone(), sentinel.clone(), sentinel.clone()],
    };
    assert!(!pt.admits(&takes_everything));

    let takes_the_sentinel = Change {
        index: 2,
        new: vec![],
        old: vec![sentinel.clone()],
    };
    assert!(!pt.admits(&takes_the_sentinel));

    let renews_the_sentinel = Change {
        index: 2,
        new: vec![sentinel.clone()],
        old: vec![sentinel.clone()],
    };
    assert!(pt.admits(&renews_the_sentinel));

    let beyond_the_buffer = Change {
        index: 0,
        new: vec![Span {
            source: Source::Added,
            position: 2,
            length: 2,
            line_breaks: None,
        }],
        old: vec![],
    };
    assert!(!pt.admits(&beyond_the_buffer));

    let too_long = Change {
        index: 0,
        new: vec![Span {
            source: Source::Added,
            position: 1,
            length: usize::MAX,
            line_breaks: None,
        }],
        old: vec![],
    };
    assert!(!pt.admits(&too_long));
}

#[test]
fn spans_are_checked_against_the_buffers() {
    let mut pt = PieceTable::from("0\n2\r\n4");
    pt.append("ab");
    let span = |source, position, length, line_breaks| Span {
        source,
        position,
        length,
        line_breaks,
    };

    assert!(pt.is_valid_span(&span(Source::Original, 0, 5, Some(vec![1, 3]))));
    assert!(pt.is_valid_span(&span(Source::Original, 0, 5, Some(vec![3]))));
    assert!(pt.is_valid_span(&span(Source::Original, 0, 5, None)));
    assert!(pt.is_valid_span(&span(Source::Original, 1, 3, Some(vec![0, 2]))));
    assert!(pt.is_valid_span(&span(Source::Original, 5, 0, None)));
    assert!(pt.is_valid_span(&span(Source::Added, 0, 2, None)));

    assert!(!pt.is_valid_span(&span(Source::Original, 0, 6, None)));
    assert!(!pt.is_valid_span(&span(Source::Original, 6, 0, None)));
    assert!(!pt.is_valid_span(&span(Source::Added, 1, 2, None)));
    assert!(!pt.is_valid_span(&span(Source::Original, 0, 5, Some(vec![]))));
    assert!(!pt.is_valid_span(&span(Source::Original, 0, 5, Some(vec![0]))));
    assert!(!pt.is_valid_span(&span(Source::Original, 0, 5, Some(vec![3, 1]))));
    assert!(!pt.is_valid_span(&span(Source::Original, 0, 5, Some(vec![1, 1]))));
    assert!(!pt.is_valid_span(&span(Source::Original, 0, 3, Some(vec![1, 3]))));
    assert!(!pt.is_valid_span(&span(Source::Added, 0, 2, Some(vec![1]))));
    assert!(!pt.is_valid_span(&span(
        Source::Original,
        usize::MAX,
        usize::MAX,
        None
    )));
}

#[test]
fn text_records_edits_and_undoes_them() {
    let mut text = Text::new("abc");

    let first = text.replace(3, 0, "def");
    assert_eq!(text.piece_table().to_string(), "abcdef");
    assert_eq!(text.history().current_payload(), first);

    let second = text.replace(0, 2, "");
    assert_eq!(text.piece_table().to_string(), "cdef");

    assert_eq!(text.undo(), Some(second.clone()));
    assert_eq!(text.piece_table().to_string(), "abcdef");
    assert_eq!(text.undo(), Some(first.clone()));
    assert_eq!(text.piece_table().to_string(), "abc");
    assert_eq!(text.undo(), None);
    assert_eq!(text.piece_table().to_string(), "abc");

    assert_eq!(text.redo(), Some(first));
    assert_eq!(text.piece_table().to_string(), "abcdef");
    assert_eq!(text.redo(), Some(second));
    assert_eq!(text.piece_table().to_string(), "cdef");
    assert_eq!(text.redo(), None);
    assert_eq!(text.piece_table().to_string(), "cdef");
}

#[test]
fn text_keeps_undone_branches() {
    let mut text = Text::new("0");

    text.replace(1, 0, "a");
    text.replace(2, 0, "b");
    assert_eq!(text.piece_table().to_string(), "0ab");

    text.undo();
    text.undo();
    assert_eq!(text.piece_table().to_string(), "0");

    text.replace(1, 0, "x");
    assert_eq!(text.piece_table().to_string(), "0x");
    text.undo();
    assert_eq!(text.history().branch_ids(), vec![1, 3]);

    assert_eq!(text.redo_branch(2), None);
    assert_eq!(text.redo_branch(0), None);
    assert_eq!(text.piece_table().to_string(), "0");

    assert!(text.redo_branch(1).is_some());
    assert_eq!(text.piece_table().to_string(), "0a");
    assert!(text.redo().is_some());
    assert_eq!(text.piece_table().to_string(), "0ab");

    text.undo();
    text.undo();
    assert!(text.redo().is_some());
    assert_eq!(text.piece_table().to_string(), "0x");
}

#[test]
fn edits_with_given_clusters() {
    let units = |texts: &[&str]| texts.iter().map(|text| text.to_string()).collect::<Vec<String>>();
    let mut pt = PieceTable::from_clusters(units(&["0", "3", "6"]));
    assert_eq!(pt.to_string(), "036");
    assert_eq!(pt.len(), 3);

    let change = pt.replace_clusters(1, 0, units(&["1", "2"]));
    assert_eq!(pt.to_string(), "01236");
    assert_eq!(
        change,
        Change {
            index: 0,
            new: vec![
                Span {
                    source: Source::Original,
                    position: 0,
                    length: 1,
                    line_breaks: None
                },
                Span {
                    source: Source::Added,
                    position: 0,
                    length: 2,
                    line_breaks: None
                },
                Span {
                    source: Source::Original,
                    position: 1,
                    length: 2,
                    line_breaks: None
                },
            ],
            old: vec![Span {
                source: Source::Original,
                position: 0,
                length: 3,
                line_breaks: None
            }]
        }
    );

    let change = pt.replace_clusters(4, 1, units(&["45", "\n"]));
    assert_eq!(pt.to_string(), "012345\n");
    assert_eq!(pt.len(), 6);
    assert_eq!(
        change.new,
        vec![
            Span {
                source: Source::Original,
                position: 1,
                length: 1,
                line_breaks: None
            },
            Span {
                source: Source::Added,
                position: 2,
                length: 2,
                line_breaks: Some(vec![1])
            },
        ]
    );
    assert_eq!(pt.range_as_string(4, 1), "45");
}

#[test]
fn try_replace_edits_like_replace() {
    let mut pt = PieceTable::from("012");

    let change = pt.try_replace(1, 1, "ab");
    assert_eq!(pt.to_string(), "0ab2");
    assert_eq!(
        change.map(|change| change.new),
        Some(vec![
            Span {
                source: Source::Original,
                position: 0,
                length: 1,
                line_breaks: None
            },
            Span {
                source: Source::Added,
                position: 0,
                length: 2,
                line_breaks: None
            },
            Span {
                source: Source::Original,
                position: 2,
                length: 1,
                line_breaks: None
            },
        ])
    );

    let mut text = Text::new("012");
    let change = text.try_replace(3, 0, "3").unwrap();
    assert_eq!(text.piece_table().to_string(), "0123");
    assert_eq!(text.undo(), Some(change));
    assert_eq!(text.piece_table().to_string(), "012");
}
