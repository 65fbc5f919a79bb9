use ropey::Rope;
use tree_house::input::{at_char_boundary, input_matches_str, IntoTsInput, TsInput};
use tree_house::rope::RopeInput;

/// A text of many chunks: lines of digits, each line numbered.
fn long_text() -> String {
    let mut text = String::new();
    for line in 0..2000 {
        text.push_str(&format!("line {line:04} é0123456789\n"));
    }
    text
}

fn chunk_count(rope: &Rope) -> usize {
    rope.chunks().filter(|chunk| !chunk.is_empty()).count()
}

#[test]
fn long_text_has_many_chunks() {
    let rope = Rope::from_str(&long_text());
    assert!(chunk_count(&rope) > 8);
}

#[test]
fn input_len_is_the_byte_length() {
    let text = long_text();
    let rope = Rope::from_str(&text);
    let input = RopeInput::new(rope.slice(..));
    assert_eq!(input.len(), text.len());
}

#[test]
fn cursor_at_lands_on_the_chunk_of_the_offset() {
    let text = long_text();
    let rope = Rope::from_str(&text);
    let mut input = RopeInput::new(rope.slice(..));
    let at = |offset: usize| (offset * 7919) % text.len();
    // Forward, backward, near and far.
    let mut offsets: Vec<usize> = vec![0, 1, 10, 5000, 5001, 4, text.len() - 1, 20000, 19000];
    for i in 0..200 {
        offsets.push(at(i));
    }
    for offset in offsets {
        input.cursor_at(offset as u32);
        let start = input.chunk_offset();
        let len = input.chunk().len();
        assert!(start <= offset, "chunk starts at {start}, behind {offset}");
        assert!(offset < start + len, "chunk [{start}, {}) ends before {offset}", start + len);
        assert_eq!(input.chunk(), &text.as_bytes()[start..start + len]);
    }
}

#[test]
fn cursor_at_the_end_of_the_text_lands_on_the_last_chunk() {
    let text = long_text();
    let rope = Rope::from_str(&text);
    let mut input = RopeInput::new(rope.slice(..));
    input.cursor_at(text.len() as u32);
    assert_eq!(input.chunk_offset() + input.chunk().len(), text.len());
    assert!(!input.advance());
}

#[test]
fn cursor_walks_every_chunk() {
    let text = long_text();
    let rope = Rope::from_str(&text);
    let mut input = RopeInput::new(rope.slice(..));
    let mut seen = Vec::new();
    loop {
        assert_eq!(input.chunk_offset(), seen.len());
        seen.extend_from_slice(input.chunk());
        if !input.advance() {
            break;
        }
    }
    assert_eq!(seen, text.as_bytes());
}

#[test]
fn cursor_over_an_empty_text() {
    let rope = Rope::from_str("");
    let mut input = RopeInput::new(rope.slice(..));
    assert_eq!(input.len(), 0);
    input.cursor_at(0);
    assert_eq!(input.chunk_offset(), 0);
    assert_eq!(input.chunk().len(), 0);
    assert!(!input.advance());
    assert!(input_matches_str("", 0..0, &mut input));
    assert!(!input_matches_str("a", 0..1, &mut input));
}

#[test]
fn input_matches_str_within_a_chunk() {
    let rope = Rope::from_str("foo bar foo");
    let mut input = RopeInput::new(rope.slice(..));
    assert!(input_matches_str("foo", 0..3, &mut input));
    assert!(input_matches_str("bar", 4..7, &mut input));
    assert!(input_matches_str("foo", 8..11, &mut input));
    assert!(!input_matches_str("foo", 4..7, &mut input));
    assert!(!input_matches_str("fo", 0..3, &mut input));
    assert!(!input_matches_str("foo", 0..2, &mut input));
    assert!(input_matches_str("", 5..5, &mut input));
    assert!(input_matches_str("foo bar foo", 0..11, &mut input));
}

#[test]
fn input_matches_str_rejects_ranges_outside_the_text() {
    let rope = Rope::from_str("foo bar");
    let mut input = RopeInput::new(rope.slice(..));
    assert!(!input_matches_str("bar", 4..8, &mut input));
    assert!(!input_matches_str("", 9..9, &mut input));
    #[allow(clippy::reversed_empty_ranges)]
    let reversed = 3..2;
    assert!(!input_matches_str("", reversed, &mut input));
}

#[test]
fn input_matches_str_across_chunks() {
    let text = long_text();
    let rope = Rope::from_str(&text);
    let mut input = RopeInput::new(rope.slice(..));
    // Ranges of many lengths from many starts, most of which cross chunks.
    let mut checked_across = 0;
    for i in 0..60 {
        let start = (i * 997) % (text.len() - 6000);
        for len in [0usize, 1, 5, 900, 1100, 2500, 5999] {
            let mut end = start + len;
            while !text.is_char_boundary(end) {
                end += 1;
            }
            let mut start = start;
            while !text.is_char_boundary(start) {
                start += 1;
            }
            if start > end {
                continue;
            }
            let wanted = &text[start..end];
            assert!(input_matches_str(wanted, start as u32..end as u32, &mut input));
            if end - start > 1100 {
                checked_across += 1;
            }
            if !wanted.is_empty() {
                // One byte changed at the end, in the middle, at the start.
                for at in [wanted.len() - 1, wanted.len() / 2, 0] {
                    let mut other = wanted.as_bytes().to_vec();
                    other[at] = if other[at] == b'#' { b'$' } else { b'#' };
                    if let Ok(other) = String::from_utf8(other) {
                        assert!(!input_matches_str(&other, start as u32..end as u32, &mut input));
                    }
                }
            }
        }
    }
    assert!(checked_across > 100);
}

#[test]
fn input_matches_str_after_a_jump_back() {
    let text = long_text();
    let rope = Rope::from_str(&text);
    let mut input = RopeInput::new(rope.slice(..));
    let far = text.len() - 10;
    assert!(input_matches_str(&text[far..], far as u32..text.len() as u32, &mut input));
    assert!(input_matches_str(&text[..4], 0..4, &mut input));
}

#[test]
fn eq_compares_two_ranges() {
    let text = long_text();
    let rope = Rope::from_str(&text);
    let mut input = RopeInput::new(rope.slice(..));
    // "line " starts every line of 25 bytes.
    assert_eq!(&text[0..5], "line ");
    let line = text.find('\n').unwrap() + 1;
    assert!(input.eq(0..5, line as u32..line as u32 + 5));
    assert!(input.eq(0..5, (150 * line) as u32..(150 * line) as u32 + 5));
    assert!(!input.eq(0..9, line as u32..line as u32 + 9));
    assert!(!input.eq(0..5, line as u32..line as u32 + 4));
    assert!(input.eq(7..7, 9..9));
}

#[test]
fn byte_slice_is_the_text_of_the_range() {
    let text = long_text();
    let rope = Rope::from_str(&text);
    let input = RopeInput::new(rope.slice(..));
    assert_eq!(input.byte_slice(0, 9), &text[0..9]);
    assert_eq!(input.byte_slice(3000, 6000), &text[3000..6000]);
    assert_eq!(input.byte_slice(10, 10), "");
}

#[test]
fn input_over_a_slice_of_a_rope() {
    let text = long_text();
    let rope = Rope::from_str(&text);
    let from = text.find("line 0100").unwrap();
    let slice = rope.byte_slice(from..);
    let mut input = RopeInput::new(slice);
    assert_eq!(input.len(), text.len() - from);
    assert!(input_matches_str("line 0100", 0..9, &mut input));
    let later = text.find("line 0300").unwrap() - from;
    assert!(input_matches_str("line 0300", later as u32..later as u32 + 9, &mut input));
}

#[test]
fn cursor_at_chunk_boundaries() {
    let text = long_text();
    let rope = Rope::from_str(&text);
    let mut boundaries = vec![0usize];
    for chunk in rope.chunks() {
        let last = *boundaries.last().unwrap();
        boundaries.push(last + chunk.len());
    }
    boundaries.pop();
    assert!(boundaries.len() > 8);
    let mut input = RopeInput::new(rope.slice(..));
    // From the last to the first, so that each move sets the cursor anew,
    // and then forward, so that each move walks.
    let backward = boundaries.iter().rev();
    let forward = boundaries.iter();
    for &at in backward.chain(forward) {
        for offset in [at.saturating_sub(1), at, at + 1] {
            input.cursor_at(offset as u32);
            let start = input.chunk_offset();
            assert!(start <= offset && offset < start + input.chunk().len(), "at {offset}");
            assert_eq!(input.chunk()[offset - start], text.as_bytes()[offset]);
        }
    }
}

#[test]
fn is_char_boundary_tells_characters_apart() {
    let text = long_text();
    let rope = Rope::from_str(&text);
    let mut input = RopeInput::new(rope.slice(..));
    for offset in (0..200).chain(text.len() - 50..text.len() + 3).chain((0..40).map(|i| i * 977)) {
        assert_eq!(at_char_boundary(&mut input, offset as u32), text.is_char_boundary(offset), "{offset}");
    }
    let rope = Rope::from_str("");
    let mut input = RopeInput::new(rope.slice(..));
    assert!(at_char_boundary(&mut input, 0));
    assert!(!at_char_boundary(&mut input, 1));
}

#[test]
fn a_slice_makes_an_input_over_its_text() {
    let text = long_text();
    let rope = Rope::from_str(&text);
    let mut input = rope.slice(..).into_ts_input();
    assert_eq!(input.len(), text.len());
    assert_eq!(input.chunk_offset(), 0);
    assert!(input_matches_str("line 0000", 0..9, &mut input));
}

#[test]
fn an_input_makes_itself() {
    let text = long_text();
    let rope = Rope::from_str(&text);
    let mut input = RopeInput::new(rope.slice(..));
    input.cursor_at(9000);
    let at = input.chunk_offset();
    let input = input.into_ts_input();
    assert_eq!(input.chunk_offset(), at);
    assert_eq!(input.len(), text.len());
}

#[test]
fn a_range_of_another_length_leaves_the_cursor_where_it_is() {
    let text = "0123456789".repeat(2000);
    let rope = Rope::from_str(&text);
    let mut input = RopeInput::new(rope.slice(..));
    input.cursor_at(15000);
    let (at, chunk) = (input.chunk_offset(), input.chunk().to_vec());
    assert!(at > 0);
    assert!(!input_matches_str("01234", 0..4, &mut input));
    assert!(!input_matches_str("0123", 19998..20002, &mut input));
    assert_eq!((input.chunk_offset(), input.chunk().to_vec()), (at, chunk));
    // A range that may match moves the cursor to it.
    assert!(input_matches_str("0123", 0..4, &mut input));
    assert_eq!(input.chunk_offset(), 0);
}
