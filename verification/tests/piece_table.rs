use cb_text::piece_table::content::Source;
use cb_text::piece_table::span::Span;
use cb_text::piece_table::{Change, PieceTable};

#[test]
fn creates_piece_table_from_str() {
    let pt = PieceTable::from("012");
    assert_eq!(pt.to_string(), "012");
}

#[test]
fn appends() {
    let mut pt = PieceTable::from("012");

    let change = pt.append("345");
    assert_eq!(pt.to_string(), "012345");
    assert_eq!(
        change,
        Change {
            index: 1,
            new: vec![Span {
                source: Source::Added,
                position: 0,
                length: 3,
                line_breaks: None
            }],
            old: vec![]
        }
    );

    let change = pt.append("678");
    assert_eq!(pt.to_string(), "012345678");
    assert_eq!(
        change,
        Change {
            index: 2,
            new: vec![Span {
                source: Source::Added,
                position: 3,
                length: 3,
                line_breaks: None
            }],
            old: vec![]
        }
    );
}

#[test]
fn appends_with_extend_spans() {
    let mut pt = PieceTable::from("012");
    pt.set_extend_spans(true);

    let change = pt.append("345");
    assert_eq!(pt.to_string(), "012345");
    assert_eq!(
        change,
        Change {
            index: 1,
            new: vec![Span {
                source: Source::Added,
                position: 0,
                length: 3,
                line_breaks: None
            }],
            old: vec![]
        }
    );

    let change = pt.append("678");
    assert_eq!(pt.to_string(), "012345678");
    assert_eq!(
        change,
        Change {
            index: 1,
            new: vec![Span {
                source: Source::Added,
                position: 0,
                length: 6,
                line_breaks: None
            }],
            old: vec![Span {
                source: Source::Added,
                position: 0,
                length: 3,
                line_breaks: None
            }]
        }
    );
}

#[test]
fn inserts_at_the_start() {
    let mut pt = PieceTable::from("678");

    let change = pt.insert(0, "345");
    assert_eq!(pt.to_string(), "345678");
    assert_eq!(
        change,
        Change {
            index: 0,
            new: vec![Span {
                source: Source::Added,
                position: 0,
                length: 3,
                line_breaks: None
            }],
            old: vec![]
        }
    );

    let change = pt.insert(0, "012");
    assert_eq!(pt.to_string(), "012345678");
    assert_eq!(
        change,
        Change {
            index: 0,
            new: vec![Span {
                source: Source::Added,
                position: 3,
                length: 3,
                line_breaks: None
            }],
            old: vec![]
        }
    );
}

#[test]
fn inserts_at_the_start_with_extend_spans() {
    let mut pt = PieceTable::from("678");
    pt.set_extend_spans(true);

    let change = pt.insert(0, "345");
    assert_eq!(pt.to_string(), "345678");
    assert_eq!(
        change,
        Change {
            index: 0,
            new: vec![Span {
                source: Source::Added,
                position: 0,
                length: 3,
                line_breaks: None
            }],
            old: vec![]
        }
    );

    let change = pt.insert(0, "012");
    assert_eq!(pt.to_string(), "012345678");
    assert_eq!(
        change,
        Change {
            index: 0,
            new: vec![Span {
                source: Source::Added,
                position: 3,
                length: 3,
                line_breaks: None
            }],
            old: vec![]
        }
    );
}

#[test]
fn inserts_at_the_end() {
    let mut pt = PieceTable::from("012");

    let change = pt.insert(3, "345");
    assert_eq!(pt.to_string(), "012345");
    assert_eq!(
        change,
        Change {
            index: 1,
            new: vec![Span {
                source: Source::Added,
                position: 0,
                length: 3,
                line_breaks: None
            }],
            old: vec![]
        }
    );

    let change = pt.insert(6, "678");
    assert_eq!(pt.to_string(), "012345678");
    assert_eq!(
        change,
        Change {
            index: 2,
            new: vec![Span {
                source: Source::Added,
                position: 3,
                length: 3,
                line_breaks: None
            }],
            old: vec![]
        }
    );
}

#[test]
fn inserts_at_the_end_with_extend_spans() {
    let mut pt = PieceTable::from("012");
    pt.set_extend_spans(true);

    let change = pt.insert(3, "345");
    assert_eq!(pt.to_string(), "012345");
    assert_eq!(
        change,
        Change {
            index: 1,
            new: vec![Span {
                source: Source::Added,
                position: 0,
                length: 3,
                line_breaks: None
            }],
            old: vec![]
        }
    );

    let change = pt.insert(6, "678");
    assert_eq!(pt.to_string(), "012345678");
    assert_eq!(
        change,
        Change {
            index: 1,
            new: vec![Span {
                source: Source::Added,
                position: 0,
                length: 6,
                line_breaks: None
            }],
            old: vec![Span {
                source: Source::Added,
                position: 0,
                length: 3,
                line_breaks: None
            }]
        }
    );
}

#[test]
fn inserts_at_position_beyond_end() {
    let mut pt = PieceTable::from("012");

    let change = pt.insert(6, "345");
    assert_eq!(pt.to_string(), "012345");
    assert_eq!(
        change,
        Change {
            index: 1,
            new: vec![Span {
                source: Source::Added,
                position: 0,
                length: 3,
                line_breaks: None
            }],
            old: vec![]
        }
    );

    let change = pt.insert(9, "678");
    assert_eq!(pt.to_string(), "012345678");
    assert_eq!(
        change,
        Change {
            index: 2,
            new: vec![Span {
                source: Source::Added,
                position: 3,
                length: 3,
                line_breaks: None
            }],
            old: vec![]
        }
    );
}

#[test]
fn inserts_at_span_boundary() {
    let mut pt = PieceTable::from("012");

    let change = pt.insert(3, "678");
    assert_eq!(pt.to_string(), "012678");
    assert_eq!(
        change,
        Change {
            index: 1,
            new: vec![Span {
                source: Source::Added,
                position: 0,
                length: 3,
                line_breaks: None
            }],
            old: vec![]
        }
    );

    let change = pt.insert(3, "345");
    assert_eq!(pt.to_string(), "012345678");
    assert_eq!(
        change,
        Change {
            index: 1,
            new: vec![Span {
                source: Source::Added,
                position: 3,
                length: 3,
                line_breaks: None
            }],
            old: vec![]
        }
    );
}

#[test]
fn inserts_inside_span() {
    let mut pt = PieceTable::from("036");

    let change = pt.insert(1, "12");
    assert_eq!(pt.to_string(), "01236");
    assert_eq!(
        change,
        Change {
            index: 0,
            new: vec![
                Span {
                    source: Source::Original,
                    position: 0,
                    length: 1,
                    line_breaks: None
                },
                Span {
                    source: Source::Added,
                    position: 0,
                    length: 2,
                    line_breaks: None
                },
                Span {
                    source: Source::Original,
                    position: 1,
                    length: 2,
                    line_breaks: None
                }
            ],
            old: vec![Span {
                source: Source::Original,
                position: 0,
                length: 3,
                line_breaks: None
            }]
        }
    );

    let change = pt.insert(4, "45");
    assert_eq!(pt.to_string(), "0123456");
    assert_eq!(
        change,
        Change {
            index: 2,
            new: vec![
                Span {
                    source: Source::Original,
                    position: 1,
                    length: 1,
                    line_breaks: None
                },
                Span {
                    source: Source::Added,
                    position: 2,
                    length: 2,
                    line_breaks: None
                },
                Span {
                    source: Source::Original,
                    position: 2,
                    length: 1,
                    line_breaks: None
                }
            ],
            old: vec![Span {
                source: Source::Original,
                position: 1,
                length: 2,
                line_breaks: None
            }]
        }
    );

    let change = pt.insert(7, "78");
    assert_eq!(pt.to_string(), "012345678");
    assert_eq!(
        change,
        Change {
            index: 5,
            new: vec![Span {
                source: Source::Added,
                position: 4,
                length: 2,
                line_breaks: None
            },],
            old: vec![]
        }
    );
}

#[test]
fn removes_at_the_start() {
    let mut pt = PieceTable::from("012345678");

    let change = pt.remove(0, 3);
    assert_eq!(pt.to_string(), "345678");
    assert_eq!(
        change,
        Change {
            index: 0,
            new: vec![Span {
                source: Source::Original,
                position: 3,
                length: 6,
                line_breaks: None
            }],
            old: vec![Span {
                source: Source::Original,
                position: 0,
                length: 9,
                line_breaks: None
            }]
        }
    );

    let change = pt.remove(0, 3);
    assert_eq!(pt.to_string(), "678");
    assert_eq!(
        change,
        Change {
            index: 0,
            new: vec![Span {
                source: Source::Original,
                position: 6,
                length: 3,
                line_breaks: None
            }],
            old: vec![Span {
                source: Source::Original,
                position: 3,
                length: 6,
                line_breaks: None
            }]
        }
    );

    let change = pt.remove(0, 3);
    assert_eq!(pt.to_string(), "");
    assert_eq!(
        change,
        Change {
            index: 0,
            new: vec![],
            old: vec![Span {
                source: Source::Original,
                position: 6,
                length: 3,
                line_breaks: None
            }]
        }
    );
}

#[test]
fn removes_at_the_end() {
    let mut pt = PieceTable::from("012345678");

    let change = pt.remove(6, 3);
    assert_eq!(pt.to_string(), "012345");
    assert_eq!(
        change,
        Change {
            index: 0,
            new: vec![Span {
                source: Source::Original,
                position: 0,
                length: 6,
                line_breaks: None
            }],
            old: vec![Span {
                source: Source::Original,
                position: 0,
                length: 9,
                line_breaks: None
            }]
        }
    );

    let change = pt.remove(3, 3);
    assert_eq!(pt.to_string(), "012");
    assert_eq!(
        change,
        Change {
            index: 0,
            new: vec![Span {
                source: Source::Original,
                position: 0,
                length: 3,
                line_breaks: None
            }],
            old: vec![Span {
                source: Source::Original,
                position: 0,
                length: 6,
                line_breaks: None
            }]
        }
    );

    let change = pt.remove(0, 3);
    assert_eq!(pt.to_string(), "");
    assert_eq!(
        change,
        Change {
            index: 0,
            new: vec![],
            old: vec![Span {
                source: Source::Original,
                position: 0,
                length: 3,
                line_breaks: None
            }]
        }
    );
}

#[test]
fn removes_at_position_beyond_end() {
    let mut pt = PieceTable::from("012345678");

    let change = pt.remove(9, 3);
    assert_eq!(pt.to_string(), "012345678");
    assert_eq!(
        change,
        Change {
            index: 1,
            new: vec![],
            old: vec![]
        }
    );
}

#[test]
fn removes_with_length_beyond_end() {
    let mut pt = PieceTable::from("012345678");

    let change = pt.remove(6, 6);
    assert_eq!(pt.to_string(), "012345");
    assert_eq!(
        change,
        Change {
            index: 0,
            new: vec![Span {
                source: Source::Original,
                position: 0,
                length: 6,
                line_breaks: None
            }],
            old: vec![Span {
                source: Source::Original,
                position: 0,
                length: 9,
                line_breaks: None
            }]
        }
    );
}

#[test]
fn removes_at_span_boundary() {
    let mut pt = PieceTable::from("012");

    pt.insert(3, "345");
    pt.insert(6, "678");

    let change = pt.remove(3, 3);
    assert_eq!(pt.to_string(), "012678");
    assert_eq!(
        change,
        Change {
            index: 1,
            new: vec![],
            old: vec![Span {
                source: Source::Added,
                position: 0,
                length: 3,
                line_breaks: None
            }]
        }
    );
}

#[test]
fn removes_inside_span() {
    let mut pt = PieceTable::from("012345678");

    let change = pt.remove(3, 3);
    assert_eq!(pt.to_string(), "012678");
    assert_eq!(
        change,
        Change {
            index: 0,
            new: vec![
                Span {
                    source: Source::Original,
                    position: 0,
                    length: 3,
                    line_breaks: None
                },
                Span {
                    source: Source::Original,
                    position: 6,
                    length: 3,
                    line_breaks: None
                }
            ],
            old: vec![Span {
                source: Source::Original,
                position: 0,
                length: 9,
                line_breaks: None
            }]
        }
    );
}

#[test]
fn removes_with_both_positions_inside_span() {
    let mut pt = PieceTable::from("012");

    pt.insert(3, "345");
    pt.insert(6, "678");

    let change = pt.remove(2, 5);
    assert_eq!(pt.to_string(), "0178");
    assert_eq!(
        change,
        Change {
            index: 0,
            new: vec![
                Span {
                    source: Source::Original,
                    position: 0,
                    length: 2,
                    line_breaks: None
                },
                Span {
                    source: Source::Added,
                    position: 4,
                    length: 2,
                    line_breaks: None
                }
            ],
            old: vec![
                Span {
                    source: Source::Original,
                    position: 0,
                    length: 3,
                    line_breaks: None
                },
                Span {
                    source: Source::Added,
                    position: 0,
                    length: 3,
                    line_breaks: None
                },
                Span {
                    source: Source::Added,
                    position: 3,
                    length: 3,
                    line_breaks: None
                }
            ]
        }
    );
}

#[test]
fn removes_with_start_position_inside_span() {
    let mut pt = PieceTable::from("012");

    pt.insert(3, "345");
    pt.insert(6, "678");

    let change = pt.remove(2, 4);
    assert_eq!(pt.to_string(), "01678");
    assert_eq!(
        change,
        Change {
            index: 0,
            new: vec![Span {
                source: Source::Original,
                position: 0,
                length: 2,
                line_breaks: None
            }],
            old: vec![
                Span {
                    source: Source::Original,
                    position: 0,
                    length: 3,
                    line_breaks: None
                },
                Span {
                    source: Source::Added,
                    position: 0,
                    length: 3,
                    line_breaks: None
                }
            ]
        }
    );
}

#[test]
fn removes_with_end_position_inside_span() {
    let mut pt = PieceTable::from("012");

    pt.insert(3, "345");
    pt.insert(6, "678");

    let change = pt.remove(3, 4);
    assert_eq!(pt.to_string(), "01278");
    assert_eq!(
        change,
        Change {
            index: 1,
            new: vec![Span {
                source: Source::Added,
                position: 4,
                length: 2,
                line_breaks: None
            }],
            old: vec![
                Span {
                    source: Source::Added,
                    position: 0,
                    length: 3,
                    line_breaks: None
                },
                Span {
                    source: Source::Added,
                    position: 3,
                    length: 3,
                    line_breaks: None
                }
            ]
        }
    );
}

#[test]
fn replaces_at_the_start() {
    let mut pt = PieceTable::from("6789345");

    let change = pt.replace(0, 4, "012");
    assert_eq!(pt.to_string(), "012345");
    assert_eq!(
        change,
        Change {
            index: 0,
            new: vec![
                Span {
                    source: Source::Added,
                    position: 0,
                    length: 3,
                    line_breaks: None
                },
                Span {
                    source: Source::Original,
                    position: 4,
                    length: 3,
                    line_breaks: None
                }
            ],
            old: vec![Span {
                source: Source::Original,
                position: 0,
                length: 7,
                line_breaks: None
            }]
        }
    );
}

#[test]
fn replaces_at_the_end() {
    let mut pt = PieceTable::from("0126789");

    let change = pt.replace(3, 4, "345");
    assert_eq!(pt.to_string(), "012345");
    assert_eq!(
        change,
        Change {
            index: 0,
            new: vec![
                Span {
                    source: Source::Original,
                    position: 0,
                    length: 3,
                    line_breaks: None
                },
                Span {
                    source: Source::Added,
                    position: 0,
                    length: 3,
                    line_breaks: None
                }
            ],
            old: vec![Span {
                source: Source::Original,
                position: 0,
                length: 7,
                line_breaks: None
            }]
        }
    );
}

#[test]
fn replaces_at_position_beyond_end() {
    let mut pt = PieceTable::from("012");

    let change = pt.replace(6, 4, "345");
    assert_eq!(pt.to_string(), "012345");
    assert_eq!(
        change,
        Change {
            index: 1,
            new: vec![Span {
                source: Source::Added,
                position: 0,
                length: 3,
                line_breaks: None
            }],
            old: vec![]
        }
    );
}

#[test]
fn replaces_with_length_beyond_end() {
    let mut pt = PieceTable::from("012678");

    let change = pt.replace(3, 6, "345");
    assert_eq!(pt.to_string(), "012345");
    assert_eq!(
        change,
        Change {
            index: 0,
            new: vec![
                Span {
                    source: Source::Original,
                    position: 0,
                    length: 3,
                    line_breaks: None
                },
                Span {
                    source: Source::Added,
                    position: 0,
                    length: 3,
                    line_breaks: None
                }
            ],
            old: vec![Span {
                source: Source::Original,
                position: 0,
                length: 6,
                line_breaks: None
            }]
        }
    );
}

#[test]
fn replaces_at_span_boundary() {
    let mut pt = PieceTable::from("012");

    pt.append("xxx");
    pt.append("678");

    let change = pt.replace(3, 3, "345");
    assert_eq!(pt.to_string(), "012345678");
    assert_eq!(
        change,
        Change {
            index: 1,
            new: vec![Span {
                source: Source::Added,
                position: 6,
                length: 3,
                line_breaks: None
            }],
            old: vec![Span {
                source: Source::Added,
                position: 0,
                length: 3,
                line_breaks: None
            }]
        }
    );
}

#[test]
fn replaces_inside_span() {
    let mut pt = PieceTable::from("012");

    pt.append("3xxx8");

    let change = pt.replace(4, 3, "4567");
    assert_eq!(pt.to_string(), "012345678");
    assert_eq!(
        change,
        Change {
            index: 1,
            new: vec![
                Span {
                    source: Source::Added,
                    position: 0,
                    length: 1,
                    line_breaks: None
                },
                Span {
                    source: Source::Added,
                    position: 5,
                    length: 4,
                    line_breaks: None
                },
                Span {
                    source: Source::Added,
                    position: 4,
                    length: 1,
                    line_breaks: None
                }
            ],
            old: vec![Span {
                source: Source::Added,
                position: 0,
                length: 5,
                line_breaks: None
            }]
        }
    );
}

#[test]
fn replaces_with_both_positions_inside_span() {
    let mut pt = PieceTable::from("012");

    pt.append("3xx");
    pt.append("x8");

    let change = pt.replace(4, 3, "4567");
    assert_eq!(pt.to_string(), "012345678");
    assert_eq!(
        change,
        Change {
            index: 1,
            new: vec![
                Span {
                    source: Source::Added,
                    position: 0,
                    length: 1,
                    line_breaks: None
                },
                Span {
                    source: Source::Added,
                    position: 5,
                    length: 4,
                    line_breaks: None
                },
                Span {
                    source: Source::Added,
                    position: 4,
                    length: 1,
                    line_breaks: None
                }
            ],
            old: vec![
                Span {
                    source: Source::Added,
                    position: 0,
                    length: 3,
                    line_breaks: None
                },
                Span {
                    source: Source::Added,
                    position: 3,
                    length: 2,
                    line_breaks: None
                }
            ]
        }
    );
}

#[test]
fn replaces_with_start_position_inside_span() {
    let mut pt = PieceTable::from("01x");

    pt.append("xxx");
    pt.append("678");

    let change = pt.replace(2, 4, "2345");
    assert_eq!(pt.to_string(), "012345678");
    assert_eq!(
        change,
        Change {
            index: 0,
            new: vec![
                Span {
                    source: Source::Original,
                    position: 0,
                    length: 2,
                    line_breaks: None
                },
                Span {
                    source: Source::Added,
                    position: 6,
                    length: 4,
                    line_breaks: None
                }
            ],
            old: vec![
                Span {
                    source: Source::Original,
                    position: 0,
                    length: 3,
                    line_breaks: None
                },
                Span {
                    source: Source::Added,
                    position: 0,
                    length: 3,
                    line_breaks: None
                }
            ]
        }
    );
}

#[test]
fn replaces_with_end_position_inside_span() {
    let mut pt = PieceTable::from("012");

    pt.append("xxx");
    pt.append("x78");

    let change = pt.replace(3, 4, "3456");
    assert_eq!(pt.to_string(), "012345678");
    assert_eq!(
        change,
        Change {
            index: 1,
            new: vec![
                Span {
                    source: Source::Added,
                    position: 6,
                    length: 4,
                    line_breaks: None
                },
                Span {
                    source: Source::Added,
                    position: 4,
                    length: 2,
                    line_breaks: None
                }
            ],
            old: vec![
                Span {
                    source: Source::Added,
                    position: 0,
                    length: 3,
                    line_breaks: None
                },
                Span {
                    source: Source::Added,
                    position: 3,
                    length: 3,
                    line_breaks: None
                }
            ]
        }
    );
}

#[test]
fn applies_changes() {
    let mut pt = PieceTable::from("012");

    let change = pt.append("345");
    assert_eq!(pt.to_string(), "012345");

    pt.revert_change(&change);
    assert_eq!(pt.to_string(), "012");

    pt.apply_change(&change);
    assert_eq!(pt.to_string(), "012345");
}

#[test]
fn fetches_content_range() {
    let mut pt = PieceTable::from("012");

    pt.append("\r\n345");
    pt.append("\n678");

    let content = pt.range_as_string(0, 11);
    assert_eq!(content, "012\r\n345\n678");

    let content = pt.range_as_string(0, 1);
    assert_eq!(content, "0");

    let content = pt.range_as_string(4, 3);
    assert_eq!(content, "345");

    let content = pt.range_as_string(3, 3);
    assert_eq!(content, "\r\n34");

    let content = pt.range_as_string(5, 10);
    assert_eq!(content, "45\n678");
}
