use tree_house::location::ParserErrorLocation;

fn locate(source: &str, start: usize, len: usize) -> ParserErrorLocation {
    ParserErrorLocation::new(source, start, len)
}

/// What the standard library's line splitting gives for the same question,
/// with line and column counted from one.
fn by_lines(source: &str, start: usize) -> (usize, usize, String, Option<String>, Option<String>) {
    let mut offset = 0;
    for (number, line) in source.split('\n').enumerate() {
        let line_start = offset;
        let line_end = line_start + line.len();
        if line_start <= start && start <= line_end {
            let content = line.strip_suffix('\r').unwrap_or(line).to_string();
            let column = source[line_start..start].chars().count();
            let before = source[..line_start]
                .lines()
                .next_back()
                .filter(|s| !s.is_empty())
                .map(ToOwned::to_owned);
            let after = source
                .get(line_end + 1..)
                .and_then(|rest| rest.lines().next())
                .filter(|s| !s.is_empty())
                .map(ToOwned::to_owned);
            return (number + 1, column + 1, content, before, after);
        }
        offset += line.len() + 1;
    }
    (1, 1, String::new(), None, None)
}

fn agrees(source: &str, start: usize) {
    let loc = locate(source, start, 1);
    let (line, column, content, before, after) = by_lines(source, start);
    assert_eq!(loc.line as usize, line, "line of {start} in {source:?}");
    assert_eq!(loc.column as usize, column, "column of {start} in {source:?}");
    assert_eq!(loc.line_content, content, "content of {start} in {source:?}");
    assert_eq!(loc.line_before, before, "line before {start} in {source:?}");
    assert_eq!(loc.line_after, after, "line after {start} in {source:?}");
}

#[test]
fn location_in_the_middle_line() {
    let source = "(a)\n(b) @c\n(d)";
    let loc = locate(source, 8, 2);
    assert_eq!(loc.line, 2);
    assert_eq!(loc.column, 5);
    assert_eq!(loc.len, 2);
    assert_eq!(loc.line_content, "(b) @c");
    assert_eq!(loc.line_before, Some("(a)".to_string()));
    assert_eq!(loc.line_after, Some("(d)".to_string()));
}

#[test]
fn location_in_the_first_line_has_no_line_before() {
    let loc = locate("abc\ndef", 1, 1);
    assert_eq!((loc.line, loc.column), (1, 2));
    assert_eq!(loc.line_content, "abc");
    assert_eq!(loc.line_before, None);
    assert_eq!(loc.line_after, Some("def".to_string()));
}

#[test]
fn location_in_the_last_line_has_no_line_after() {
    let loc = locate("abc\ndef", 5, 1);
    assert_eq!((loc.line, loc.column, loc.len), (2, 2, 1));
    assert_eq!(loc.line_content, "def");
    assert_eq!(loc.line_before, Some("abc".to_string()));
    assert_eq!(loc.line_after, None);
}

#[test]
fn location_at_a_line_break_lies_in_the_line_that_it_ends() {
    let loc = locate("abc\ndef", 3, 0);
    assert_eq!((loc.line, loc.column), (1, 4));
    assert_eq!(loc.line_content, "abc");
}

#[test]
fn location_at_the_end_of_the_source() {
    let loc = locate("abc\ndef", 7, 0);
    assert_eq!((loc.line, loc.column), (2, 4));
    assert_eq!(loc.line_content, "def");
    assert_eq!(loc.line_after, None);
}

#[test]
fn location_behind_the_end_lies_in_no_line() {
    // It is put at the start, with no line content.
    let loc = locate("abc\ndef", 8, 3);
    assert_eq!((loc.line, loc.column, loc.len), (1, 1, 3));
    assert_eq!(loc.line_content, "");
    assert_eq!(loc.line_before, None);
    assert_eq!(loc.line_after, None);
}

#[test]
fn location_in_an_empty_source() {
    let loc = locate("", 0, 0);
    assert_eq!((loc.line, loc.column), (1, 1));
    assert_eq!(loc.line_content, "");
    assert_eq!(loc.line_before, None);
    assert_eq!(loc.line_after, None);
}

#[test]
fn location_counts_columns_in_codepoints() {
    let source = "é = ü\nλx";
    // `ü` starts at byte 5 and is the fifth codepoint of its line.
    let loc = locate(source, 5, 1);
    assert_eq!((loc.line, loc.column), (1, 5));
    assert_eq!(loc.line_content, "é = ü");
    // `x` starts behind the two bytes of `λ`.
    let loc = locate(source, 10, 1);
    assert_eq!((loc.line, loc.column), (2, 2));
    assert_eq!(loc.line_content, "λx");
}

#[test]
fn location_strips_one_carriage_return() {
    let source = "a\r\nb\r\r\nc\r\n";
    let loc = locate(source, 3, 1);
    assert_eq!(loc.line_content, "b\r");
    assert_eq!(loc.line_before, Some("a".to_string()));
    assert_eq!(loc.line_after, Some("c".to_string()));
}

#[test]
fn location_skips_empty_neighbours() {
    let source = "a\n\nb\n\nc";
    let loc = locate(source, 3, 1);
    assert_eq!(loc.line, 3);
    assert_eq!(loc.line_content, "b");
    assert_eq!(loc.line_before, None);
    assert_eq!(loc.line_after, None);
}

#[test]
fn location_last_line_keeps_its_carriage_return_as_neighbour() {
    // A last line that no line break ends is handed out as it is.
    let loc = locate("a\nb\r", 0, 1);
    assert_eq!(loc.line_after, Some("b\r".to_string()));
    let loc = locate("a\nb\r\n", 0, 1);
    assert_eq!(loc.line_after, Some("b".to_string()));
}

#[test]
fn location_agrees_with_line_splitting() {
    let sources = [
        "",
        "\n",
        "\n\n",
        "a",
        "a\n",
        "\na",
        "a\nb",
        "a\r\nb\r\nc",
        "a\r",
        "\r\n\r\n",
        "x\n\r\ny\rz\n",
        "(identifier) @var\n((call) @c (#eq? @c \"f\"))\n",
        "é\nüü\n\nλ\r\n",
        "one\ntwo\nthree\nfour",
    ];
    for source in sources {
        for start in 0..=source.len() {
            if source.is_char_boundary(start) {
                agrees(source, start);
            }
        }
    }
}

#[test]
fn location_len_is_truncated_to_32_bits() {
    let loc = locate("abc", 0, (1usize << 32) + 5);
    assert_eq!(loc.len, 5);
}

#[test]
fn location_is_written_with_its_neighbours() {
    let loc = locate("(a)\n(b) @c\n(d)", 8, 2);
    assert_eq!(
        loc.to_string(),
        "  --> 2:5\n   |\n 1 | (a)\n 2 | (b) @c\n   |     ^^\n 3 | (d)\n   |\n"
    );
}

#[test]
fn location_is_written_without_neighbours() {
    let loc = locate("(b) @c", 0, 0);
    assert_eq!(loc.to_string(), "  --> 1:1\n   |\n 1 | (b) @c\n   | ^\n   |\n");
}

#[test]
fn location_margin_is_as_wide_as_the_greatest_line_number() {
    let source = "1\n2\n3\n4\n5\n6\n7\n8\nnine\nten";
    let loc = locate(source, source.find("nine").unwrap() + 1, 3);
    assert_eq!(
        loc.to_string(),
        "  --> 9:2\n    |\n 8 | 8\n 9 | nine\n    |  ^^^\n 10 | ten\n    |\n"
    );
    // Without a line after, the greatest number is that of the line itself.
    let loc = locate(source, source.find("ten").unwrap(), 1);
    assert_eq!(loc.to_string(), "  --> 10:1\n    |\n 9 | nine\n 10 | ten\n    | ^\n    |\n");
}

#[test]
fn location_counts_lines_and_columns_from_one() {
    // Each `é` takes two bytes: `x` is the third codepoint of the second line.
    let loc = locate("ab\nééx", 7, 1);
    assert_eq!((loc.line, loc.column, loc.len), (2, 3, 1));
    assert_eq!(loc.line_content, "ééx");
    let source = "one\ntwo\nthree\n";
    for (start, _) in source.char_indices() {
        let loc = locate(source, start, 1);
        let breaks = source.as_bytes()[..start].iter().filter(|b| **b == b'\n').count();
        let line_start = source[..start].rfind('\n').map_or(0, |i| i + 1);
        assert_eq!(loc.line as usize, 1 + breaks);
        assert_eq!(loc.column as usize, 1 + source[line_start..start].chars().count());
    }
}

#[test]
fn location_is_written_as_its_fields_say() {
    let loc = ParserErrorLocation {
        line: 7,
        column: 3,
        len: 2,
        line_content: "seven".to_string(),
        line_before: Some("six".to_string()),
        line_after: None,
    };
    assert_eq!(loc.to_string(), "  --> 7:3\n   |\n 6 | six\n 7 | seven\n   |   ^^\n   |\n");
    // A location in no line is written with the numbers that it holds.
    let loc = ParserErrorLocation {
        line: 0,
        column: 0,
        len: 0,
        line_content: String::new(),
        line_before: None,
        line_after: None,
    };
    assert_eq!(loc.to_string(), "  --> 0:0\n   |\n 0 | \n   |^\n   |\n");
}
