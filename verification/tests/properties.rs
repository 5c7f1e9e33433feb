use line_numbers::LineNumber;
use line_numbers::LinePositions;
use line_numbers::PositionError;
use line_numbers::SingleLineSpan;

fn span(line: u32, start_col: u32, end_col: u32) -> SingleLineSpan {
    SingleLineSpan {
        line: LineNumber(line),
        start_col,
        end_col,
    }
}

#[test]
fn empty_buffer_has_one_line() {
    let positions = LinePositions::from("");
    assert_eq!(positions.from_offset(0), (LineNumber(0), 0));
    assert_eq!(positions.from_region(0, 0), vec![span(0, 0, 0)]);
}

#[test]
fn no_trailing_newline_single_line() {
    let positions = LinePositions::from("foo");
    assert_eq!(positions.from_offset(0), (LineNumber(0), 0));
    assert_eq!(positions.from_offset(3), (LineNumber(0), 3));
    assert_eq!(positions.from_region(0, 3), vec![span(0, 0, 3)]);
}

#[test]
fn trailing_newline_adds_empty_line() {
    let positions = LinePositions::from("foo\n");
    assert_eq!(positions.from_offset(3), (LineNumber(0), 3));
    assert_eq!(positions.from_offset(4), (LineNumber(1), 0));
    assert_eq!(positions.from_region(0, 4), vec![span(0, 0, 3), span(1, 0, 0)]);
}

#[test]
fn zero_width_region_at_first_and_last_offset() {
    let positions = LinePositions::from("foo\n");
    assert_eq!(positions.from_region(0, 0), vec![span(0, 0, 0)]);
    assert_eq!(positions.from_region(4, 4), vec![span(1, 0, 0)]);
}

#[test]
fn offset_and_region_in_three_line_buffer() {
    let positions = LinePositions::from("foo\nbar\nbaz\n");
    let (line, column) = positions.from_offset(5);
    assert_eq!(line.as_usize(), 1);
    assert_eq!(column, 1);
    // The region covers "ar\nba".
    assert_eq!(positions.from_region(5, 10), vec![span(1, 1, 3), span(2, 0, 2)]);
}

#[test]
fn out_of_bounds_offset_is_reported() {
    let positions = LinePositions::from("foo");
    assert_eq!(
        positions.try_from_offset(4),
        Err(PositionError::OffsetOutOfBounds {
            offset: 4,
            bound: 3
        })
    );
    assert_eq!(positions.try_from_offset(3), Ok((LineNumber(0), 3)));
}

#[test]
fn invalid_regions_are_reported() {
    let positions = LinePositions::from("foo");
    assert_eq!(
        positions.try_from_region(2, 1),
        Err(PositionError::ReversedRegion { start: 2, end: 1 })
    );
    assert_eq!(
        positions.try_from_region(5, 9),
        Err(PositionError::OffsetOutOfBounds {
            offset: 5,
            bound: 3
        })
    );
    assert_eq!(
        positions.try_from_region(1, 9),
        Err(PositionError::OffsetOutOfBounds {
            offset: 9,
            bound: 3
        })
    );
    assert_eq!(positions.try_from_region(1, 3), Ok(vec![span(0, 1, 3)]));
}

#[test]
fn building_twice_gives_identical_answers() {
    let text = "foo\nbar\nbaz\n";
    let first = LinePositions::from(text);
    let second = LinePositions::from(text);
    for offset in 0usize..=text.len() {
        assert_eq!(first.from_offset(offset), second.from_offset(offset));
    }
    assert_eq!(first.from_region(2, 9), second.from_region(2, 9));
}

#[test]
fn line_of_offset_counts_newlines() {
    let text = "a\nbc\n\nd";
    let positions = LinePositions::from(text);
    for offset in 0usize..=text.len() {
        let (line, column) = positions.from_offset(offset);
        let newlines = text.bytes().take(offset).filter(|b| *b == b'\n').count();
        assert_eq!(line.as_usize(), newlines);
        assert!(column <= offset);
    }
}

#[test]
fn spans_concatenate_to_region_text() {
    let text = "foo\nbar\nbaz";
    let positions = LinePositions::from(text);
    let lines: Vec<&str> = text.split('\n').collect();
    let covered: Vec<&str> = positions
        .from_region(1, 9)
        .into_iter()
        .map(|sp| &lines[sp.line.as_usize()][sp.start_col as usize..sp.end_col as usize])
        .collect();
    assert_eq!(covered.join("\n"), &text[1..9]);
}

#[test]
fn composed_spans_match_enclosing_query() {
    let enclosing = "hello\nworld\nxyz";
    let k: usize = 3;
    let inner_text = &enclosing[k..k + 9];
    assert_eq!(inner_text, "lo\nworld\n");

    let enclosing_positions = LinePositions::from(enclosing);
    let inner_positions = LinePositions::from(inner_text);

    let (anchor_line, anchor_col) = enclosing_positions.from_offset(k);
    let anchor = SingleLineSpan {
        line: anchor_line,
        start_col: anchor_col as u32,
        end_col: anchor_col as u32,
    };

    let composed = inner_positions.from_region_relative_to(anchor, 1, 8);
    let direct = enclosing_positions.from_region(k + 1, k + 8);
    assert_eq!(composed, direct);
    assert_eq!(composed, vec![span(0, 4, 5), span(1, 0, 5)]);
}

#[test]
fn display_is_one_indexed_decimal() {
    assert_eq!(LineNumber(9).display(), "10");
    assert_eq!(LineNumber(41).display(), "42");
    assert_eq!(LineNumber(99).display(), "100");
    assert_eq!(LineNumber(1233999).display(), "1234000");
}

#[test]
fn line_number_conversions() {
    assert_eq!(LineNumber::from(5).as_usize(), 5);
    let seven: LineNumber = 7u32.into();
    assert_eq!(seven, LineNumber(7));
}
