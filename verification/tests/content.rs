use cb_text::piece_table::content::{Content, Source};
use cb_text::piece_table::graphemes::is_line_break_cluster;
use cb_text::piece_table::span::Span;

#[test]
fn append_describes_the_stored_region() {
    let mut content = Content::new(Source::Added);

    let first = content.append("ab");
    assert_eq!(
        first,
        Span {
            source: Source::Added,
            position: 0,
            length: 2,
            line_breaks: None
        }
    );

    let second = content.append("c\r\nd\n");
    assert_eq!(
        second,
        Span {
            source: Source::Added,
            position: 2,
            length: 4,
            line_breaks: Some(vec![1, 3])
        }
    );
    assert_eq!(content.buffer.len(), 6);
    assert_eq!(content.content_for_span(&first, 0, 2), "ab");
    assert_eq!(content.content_for_span(&second, 0, 4), "c\r\nd\n");
}

#[test]
fn append_of_nothing_gives_an_empty_span() {
    let mut content = Content::new(Source::Original);
    content.append("xy");

    let span = content.append("");
    assert_eq!(
        span,
        Span {
            source: Source::Original,
            position: 2,
            length: 0,
            line_breaks: None
        }
    );
    assert_eq!(content.buffer.len(), 2);
}

#[test]
fn text_is_measured_in_grapheme_clusters() {
    let mut content = Content::new(Source::Original);

    let span = content.append("e\u{301}\r\n\u{1F1F7}\u{1F1FA}\u{1F1F8}\u{1F1F9}");
    assert_eq!(span.length, 4);
    assert_eq!(span.line_breaks, Some(vec![1]));
    assert_eq!(content.content_for_span(&span, 0, 1), "e\u{301}");
    assert_eq!(content.content_for_span(&span, 2, 1), "\u{1F1F7}\u{1F1FA}");
    assert_eq!(content.content_for_span(&span, 3, 1), "\u{1F1F8}\u{1F1F9}");
}

#[test]
fn stored_clusters_stay_apart() {
    let mut content = Content::new(Source::Added);

    let first = content.append("\r");
    let second = content.append("\n");
    assert_eq!(first.length, 1);
    assert_eq!(first.line_breaks, None);
    assert_eq!(second.position, 1);
    assert_eq!(second.length, 1);
    assert_eq!(second.line_breaks, Some(vec![0]));
    assert_eq!(content.content_for_span(&first, 0, 1), "\r");
    assert_eq!(content.content_for_span(&second, 0, 1), "\n");
}

#[test]
fn reads_are_clamped_to_the_span() {
    let mut content = Content::new(Source::Original);
    content.append("012345");
    let inner = Span {
        source: Source::Original,
        position: 1,
        length: 3,
        line_breaks: None,
    };

    assert_eq!(content.content_for_span(&inner, 0, 3), "123");
    assert_eq!(content.content_for_span(&inner, 1, 10), "23");
    assert_eq!(content.content_for_span(&inner, 1, 1), "2");
    assert_eq!(content.content_for_span(&inner, 0, 0), "");
    assert_eq!(content.content_for_span(&inner, 3, 2), "");
    assert_eq!(content.content_for_span(&inner, 5, 2), "");
    assert_eq!(content.content_for_span(&inner, 2, usize::MAX), "3");
    assert_eq!(content.content_for_span(&inner, usize::MAX, usize::MAX), "");
}

#[test]
fn reads_are_clamped_to_the_buffer() {
    let mut content = Content::new(Source::Original);
    content.append("012345");
    let beyond = Span {
        source: Source::Original,
        position: 4,
        length: 10,
        line_breaks: None,
    };
    let outside = Span {
        source: Source::Original,
        position: usize::MAX,
        length: usize::MAX,
        line_breaks: None,
    };

    assert_eq!(content.content_for_span(&beyond, 0, 10), "45");
    assert_eq!(content.content_for_span(&beyond, 1, 10), "5");
    assert_eq!(content.content_for_span(&beyond, 7, 1), "");
    assert_eq!(content.content_for_span(&outside, 1, 1), "");
}

#[test]
fn line_terminators_are_told_apart() {
    assert!(is_line_break_cluster("\n"));
    assert!(is_line_break_cluster("\r\n"));
    assert!(!is_line_break_cluster("\r"));
    assert!(!is_line_break_cluster(""));
    assert!(!is_line_break_cluster("a"));
    assert!(!is_line_break_cluster("\n\n"));
    assert!(!is_line_break_cluster("\r\n\n"));
}

#[test]
fn span_head_keeps_the_terminators_before_the_cut() {
    let span = Span {
        source: Source::Original,
        position: 0,
        length: 9,
        line_breaks: Some(vec![0, 4, 7, 8]),
    };

    assert_eq!(
        span.head(2),
        Span {
            source: Source::Original,
            position: 0,
            length: 2,
            line_breaks: Some(vec![0])
        }
    );
    assert_eq!(
        span.head(4),
        Span {
            source: Source::Original,
            position: 0,
            length: 4,
            line_breaks: Some(vec![0])
        }
    );
    assert_eq!(span.head(0).line_breaks, None);
}

#[test]
fn span_tail_keeps_the_terminators_beyond_the_cut() {
    let span = Span {
        source: Source::Original,
        position: 3,
        length: 9,
        line_breaks: Some(vec![0, 4, 7, 8]),
    };

    assert_eq!(
        span.tail(2),
        Span {
            source: Source::Original,
            position: 5,
            length: 7,
            line_breaks: Some(vec![2, 5, 6])
        }
    );
    assert_eq!(
        span.tail(4),
        Span {
            source: Source::Original,
            position: 7,
            length: 5,
            line_breaks: Some(vec![3, 4])
        }
    );
    assert_eq!(span.tail(8).line_breaks, None);
}

#[test]
fn span_extended_joins_lengths_and_terminators() {
    let first = Span {
        source: Source::Added,
        position: 2,
        length: 3,
        line_breaks: Some(vec![1]),
    };
    let second = Span {
        source: Source::Added,
        position: 5,
        length: 2,
        line_breaks: Some(vec![0]),
    };

    assert_eq!(
        first.extended(&second),
        Span {
            source: Source::Added,
            position: 2,
            length: 5,
            line_breaks: Some(vec![1, 3])
        }
    );

    let plain = Span {
        source: Source::Added,
        position: 0,
        length: 4,
        line_breaks: None,
    };
    assert_eq!(
        plain.extended(&plain),
        Span {
            source: Source::Added,
            position: 0,
            length: 8,
            line_breaks: None
        }
    );
}

#[test]
fn sentinel_is_empty() {
    assert_eq!(
        Span::new_sentinel(),
        Span {
            source: Source::Original,
            position: 0,
            length: 0,
            line_breaks: None
        }
    );
}

#[test]
fn given_clusters_are_stored_one_unit_each() {
    let mut content = Content::new(Source::Added);

    let span = content.append_clusters(vec![
        String::from("ab"),
        String::from("\n"),
        String::from(""),
        String::from("\r\n"),
    ]);
    assert_eq!(
        span,
        Span {
            source: Source::Added,
            position: 0,
            length: 4,
            line_breaks: Some(vec![1, 3])
        }
    );
    assert_eq!(content.content_for_span(&span, 0, 1), "ab");
    assert_eq!(content.content_for_span(&span, 0, 4), "ab\n\r\n");

    let span = content.append_clusters(vec![]);
    assert_eq!(
        span,
        Span {
            source: Source::Added,
            position: 4,
            length: 0,
            line_breaks: None
        }
    );
}
