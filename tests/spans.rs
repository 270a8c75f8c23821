use syn_serde::SpanInfo;

#[test]
fn test_span_info_methods() {
    let span_info = SpanInfo {
        start_offset: 0,
        end_offset: 0,
        start_line: 2,
        start_column: 10,
        end_line: 2,
        end_column: 15,
    };

    assert_eq!(span_info.column_length(), Some(5));
    assert!(!span_info.is_point());

    let point_span = SpanInfo {
        start_offset: 0,
        end_offset: 0,
        start_line: 1,
        start_column: 5,
        end_line: 1,
        end_column: 5,
    };

    assert!(point_span.is_point());
    assert_eq!(point_span.column_length(), Some(0));

    let multiline_span = SpanInfo {
        start_offset: 0,
        end_offset: 0,
        start_line: 1,
        start_column: 10,
        end_line: 3,
        end_column: 5,
    };

    assert!(!multiline_span.is_point());
    assert_eq!(multiline_span.column_length(), None);
}

#[test]
fn column_length_of_reversed_columns_is_zero() {
    let span = SpanInfo {
        start_offset: 0,
        end_offset: 0,
        start_line: 4,
        start_column: 9,
        end_line: 4,
        end_column: 3,
    };
    assert_eq!(span.column_length(), Some(0));
    assert!(!span.is_point());
}

#[test]
fn call_site_span_is_line_one_column_zero() {
    let span = SpanInfo::call_site();
    assert_eq!(span, SpanInfo { start_offset: 0, end_offset: 0, start_line: 1, start_column: 0, end_line: 1, end_column: 0 });
    assert_eq!(SpanInfo::default(), span);
}

#[test]
fn from_positions_copies_known_positions() {
    let span = SpanInfo::from_positions(Some((2, 3, 4, 6)));
    assert_eq!(span, SpanInfo { start_offset: 0, end_offset: 0, start_line: 2, start_column: 3, end_line: 4, end_column: 6 });
}

#[test]
fn from_positions_falls_back_without_positions() {
    let span = SpanInfo::from_positions(None);
    assert_eq!(span, SpanInfo { start_offset: 0, end_offset: 0, start_line: 1, start_column: 0, end_line: 1, end_column: 0 });
    assert!(span.is_point());
}
