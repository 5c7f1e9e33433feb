use line_numbers::LineNumber;
use line_numbers::LinePositions;
use line_numbers::SingleLineSpan;

#[test]
fn test_display_one_indexed() {
    let ln = LineNumber(0);
    assert_eq!(ln.display(), "1");
}

#[test]
fn from_offset() {
    let newline_positions = LinePositions::from("foo\nbar");
    let offset: usize = 5;

    let (line, column) = newline_positions.from_offset(offset);
    assert_eq!(line.as_usize(), 1);
    assert_eq!(column, 1);
}

#[test]
fn from_region_first_line() {
    let newline_positions = LinePositions::from("foo");
    let line_spans = newline_positions.from_region(1, 3);
    assert_eq!(
        line_spans,
        vec![SingleLineSpan {
            line: 0.into(),
            start_col: 1,
            end_col: 3
        }]
    );
}

#[test]
fn from_region_first_char() {
    let newline_positions = LinePositions::from("foo");
    let line_spans = newline_positions.from_region(0, 0);
    assert_eq!(
        line_spans,
        vec![SingleLineSpan {
            line: 0.into(),
            start_col: 0,
            end_col: 0
        }]
    );
}

#[test]
fn from_region_split_over_multiple_lines() {
    let newline_positions = LinePositions::from("foo\nbar\nbaz\naaaaaaaaaaa");
    let line_spans = newline_positions.from_region(5, 10);

    assert_eq!(
        line_spans,
        vec![
            SingleLineSpan {
                line: 1.into(),
                start_col: 1,
                end_col: 3
            },
            SingleLineSpan {
                line: 2.into(),
                start_col: 0,
                end_col: 2
            }
        ]
    );
}

#[test]
fn from_region_relative_to() {
    let newline_positions = LinePositions::from("foo\nbar");

    let pos = SingleLineSpan {
        line: 100.into(),
        start_col: 1,
        end_col: 1,
    };

    let line_spans = newline_positions.from_region_relative_to(pos, 1, 7);
    assert_eq!(
        line_spans,
        vec![
            SingleLineSpan {
                line: 100.into(),
                start_col: 2,
                end_col: 4
            },
            SingleLineSpan {
                line: 101.into(),
                start_col: 0,
                end_col: 3
            }
        ]
    );
}
