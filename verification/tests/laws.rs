use std::borrow::Cow;
use text_buffer::buffer::{bytes_equal, write_bytes, Buffer, GAP_SIZE};
use text_buffer::metric::Metric;

fn from(text: &str) -> Buffer {
    Buffer::with_gap_size(text, 5)
}

/// What holds of every buffer between two operations.
fn check(buffer: &Buffer, text: &str, cursor: usize) {
    assert_eq!(buffer.len() + buffer.gap_len(), buffer.capacity());
    assert_eq!(buffer.len(), text.len());
    assert_eq!(buffer.len_chars(), text.chars().count());
    assert_eq!(buffer.is_empty(), text.is_empty());
    assert_eq!(buffer.gap_len(), buffer.gap_end() - buffer.gap_start());
    assert_eq!(buffer.gap_chars(), text[..buffer.gap_start()].chars().count());
    assert!(text.is_char_boundary(buffer.gap_start()));
    let place = buffer.cursor();
    assert_eq!(place.chars, cursor);
    assert!(place.bytes < buffer.gap_start() || place.bytes >= buffer.gap_end());
    assert_eq!(place.bytes < buffer.gap_start(), place.chars < buffer.gap_chars());
    assert_eq!(place.bytes, buffer.char_to_byte(cursor));
    assert!(place.bytes == buffer.gap_start() || buffer.is_char_boundary(place.bytes));
    assert!(buffer.is_char_boundary(buffer.gap_end()));
    assert_eq!(buffer.to_string(), text);
    assert_eq!(buffer.read(0..buffer.len()), text);
    assert!(buffer.equals(text));
    assert!(*buffer == *text);
    assert!(*buffer == text.to_string());
}

#[test]
fn invariants_through_an_edit_script() {
    let mut buffer = from("hello wörld");
    check(&buffer, "hello wörld", 0);
    buffer.set_cursor(6);
    check(&buffer, "hello wörld", 6);
    buffer.insert("Θ big ");
    check(&buffer, "hello Θ big wörld", 12);
    buffer.set_cursor(100);
    check(&buffer, "hello Θ big wörld", 17);
    buffer.insert_char('𝄞');
    check(&buffer, "hello Θ big wörld𝄞", 18);
    buffer.delete_range(14, 2);
    check(&buffer, "herld𝄞", 6);
    buffer.move_gap_out_of(None, None);
    check(&buffer, "herld𝄞", 6);
    buffer.delete_backwards(1);
    check(&buffer, "herld", 5);
    buffer.set_cursor(1);
    buffer.delete_forwards(3);
    check(&buffer, "hd", 1);
    buffer.delete_backwards(7);
    check(&buffer, "d", 0);
    buffer.delete_forwards(usize::MAX);
    check(&buffer, "", 0);
    buffer.insert("");
    check(&buffer, "", 0);
}

#[test]
fn insert_then_delete_backwards_restores() {
    for cursor in 0..=5 {
        for piece in ["", "x", "Θƽ", "a longer piece of text, longer than the gap"] {
            let mut buffer = from("wörld");
            buffer.set_cursor(cursor);
            buffer.insert(piece);
            assert_eq!(buffer.cursor().chars, cursor + piece.chars().count());
            buffer.delete_backwards(piece.chars().count());
            check(&buffer, "wörld", cursor);
        }
    }
}

#[test]
fn move_gap_out_of_twice_is_once() {
    for gap in 0..=6 {
        for (start, end) in [(None, None), (Some(1), Some(5)), (Some(2), None), (None, Some(3))] {
            let mut buffer = from("abΘdef");
            buffer.set_cursor(4);
            buffer.move_gap(Metric { bytes: buffer.char_to_byte(gap), chars: gap });
            buffer.move_gap_out_of(start, end);
            let once = (buffer.gap_start(), buffer.gap_end(), buffer.gap_chars(), buffer.cursor());
            let shown = buffer.rendering();
            buffer.move_gap_out_of(start, end);
            let twice = (buffer.gap_start(), buffer.gap_end(), buffer.gap_chars(), buffer.cursor());
            assert_eq!(once, twice);
            assert_eq!(shown, buffer.rendering());
            check(&buffer, "abΘdef", 4);
        }
    }
}

#[test]
fn move_gap_out_of_goes_to_the_nearer_end() {
    let at = |gap: usize, start: Option<usize>, end: Option<usize>| {
        let mut buffer = from("abcdefgh");
        buffer.move_gap(Metric { bytes: buffer.char_to_byte(gap), chars: gap });
        buffer.move_gap_out_of(start, end);
        buffer.gap_chars()
    };
    assert_eq!(at(3, None, None), 0);
    assert_eq!(at(5, None, None), 8);
    // Equally near: the start.
    assert_eq!(at(4, None, None), 0);
    assert_eq!(at(4, Some(2), Some(6)), 2);
    assert_eq!(at(3, Some(2), Some(6)), 2);
    assert_eq!(at(5, Some(2), Some(6)), 6);
    // At the start of the range, at its end or outside it: no move.
    assert_eq!(at(2, Some(2), Some(6)), 2);
    assert_eq!(at(6, Some(2), Some(6)), 6);
    assert_eq!(at(1, Some(2), Some(6)), 1);
    assert_eq!(at(7, Some(2), Some(6)), 7);
    // Without a start, a gap at 0 is inside.
    assert_eq!(at(0, None, Some(6)), 0);
    assert_eq!(at(7, Some(2), None), 8);
}

#[test]
fn read_all_is_the_text() {
    let mut buffer = from("wörld");
    buffer.insert("hello ");
    buffer.set_cursor(3);
    buffer.insert("Θ");
    assert_eq!(buffer.read(0..buffer.len()), "helΘlo wörld");
}

#[test]
fn read_snaps_to_char_boundaries() {
    // a Θ b: bytes 0, 1-2, 3.
    let buffer = from("aΘb");
    assert_eq!(buffer.read(2..4), "b");
    assert_eq!(buffer.read(0..2), "a");
    assert_eq!(buffer.read(1..3), "Θ");
    assert_eq!(buffer.read(0..4), "aΘb");
    assert_eq!(buffer.read(3..3), "");
    // 𝄞 takes four bytes.
    let buffer = from("𝄞x");
    assert_eq!(buffer.read(0..3), "");
    assert_eq!(buffer.read(1..5), "x");
    assert_eq!(buffer.read(0..5), "𝄞x");
}

#[test]
fn read_borrows_unless_the_range_spans_the_gap() {
    let mut buffer = from("hello world");
    buffer.set_cursor(5);
    buffer.insert("");
    assert_eq!(buffer.gap_start(), 5);
    assert!(matches!(buffer.read(0..5), Cow::Borrowed("hello")));
    assert!(matches!(buffer.read(5..11), Cow::Borrowed(" world")));
    assert!(matches!(buffer.read(2..3), Cow::Borrowed("l")));
    match buffer.read(4..6) {
        Cow::Owned(text) => assert_eq!(text, "o "),
        Cow::Borrowed(_) => panic!("a range over the gap is copied"),
    }
    match buffer.read(0..11) {
        Cow::Owned(text) => assert_eq!(text, "hello world"),
        Cow::Borrowed(_) => panic!("a range over the gap is copied"),
    }
}

#[test]
fn rendering_shows_the_gap() {
    let mut buffer = from("world");
    assert_eq!(buffer.rendering(), "_____world");
    buffer.insert("hi ");
    assert_eq!(buffer.rendering(), "hi __world");
    buffer.insert("Θ!");
    assert_eq!(buffer.rendering(), "hi Θ!_____world");
    assert_eq!(Buffer::new().rendering(), "");
}

#[test]
fn from_str_leaves_the_default_gap() {
    let buffer = Buffer::from("abc");
    assert_eq!(buffer.gap_start(), 0);
    assert_eq!(buffer.gap_end(), GAP_SIZE);
    assert_eq!(buffer.gap_end(), 2000);
    assert_eq!(buffer.capacity(), 2003);
    assert_eq!(buffer.cursor(), Metric { bytes: 2000, chars: 0 });
    check(&buffer, "abc", 0);
}

#[test]
fn growing_leaves_a_fresh_gap() {
    let mut buffer = Buffer::new();
    buffer.insert("abc");
    assert_eq!(buffer.gap_start(), 3);
    assert_eq!(buffer.gap_len(), GAP_SIZE);
    assert_eq!(buffer.capacity(), 3 + GAP_SIZE);

    let mut buffer = from("world");
    buffer.insert("123456");
    assert_eq!(buffer.gap_start(), 6);
    assert_eq!(buffer.gap_end(), 11);
    assert_eq!(buffer.capacity(), 16);
    assert_eq!(buffer.cursor(), Metric { bytes: 11, chars: 6 });
    buffer.insert("12345");
    assert_eq!(buffer.gap_start(), 11);
    assert_eq!(buffer.gap_end(), 11);
    assert_eq!(buffer.capacity(), 16);
    check(&buffer, "12345612345world", 11);
}

#[test]
fn equality_with_strings() {
    let mut buffer = from("wörld");
    buffer.insert("hi ");
    assert!(buffer == "hi wörld");
    assert!(buffer != "hi world");
    assert!(buffer != "hi wörld!");
    assert!(buffer != "hi wörl");
    assert!(buffer != "ho wörld");
    assert!(buffer != "");
    // The same length in bytes, with a character across the place of the gap.
    assert!(buffer != "hiΘwörld");
    assert!(buffer != "hΘ wörld");
    assert!(buffer == String::from("hi wörld"));
    assert!(Buffer::new() == "");
}

#[test]
fn char_to_byte_names_places_in_the_storage() {
    let mut buffer = from("ƽaej");
    assert_eq!(buffer.char_to_byte(0), 5);
    assert_eq!(buffer.char_to_byte(1), 7);
    assert_eq!(buffer.char_to_byte(2), 8);
    assert_eq!(buffer.char_to_byte(4), 10);
    buffer.set_cursor(2);
    buffer.insert("Θ");
    // ƽ a Θ | gap of 3 | e j
    assert_eq!(buffer.rendering(), "ƽaΘ___ej");
    assert_eq!(buffer.char_to_byte(0), 0);
    assert_eq!(buffer.char_to_byte(1), 2);
    assert_eq!(buffer.char_to_byte(2), 3);
    assert_eq!(buffer.char_to_byte(3), 8);
    assert_eq!(buffer.char_to_byte(4), 9);
    assert_eq!(buffer.char_to_byte(5), 10);
    assert_eq!(buffer.to_abs_pos(Metric { bytes: 9, chars: 4 }), Metric { bytes: 6, chars: 4 });
    assert_eq!(buffer.to_abs_pos(Metric { bytes: 2, chars: 1 }), Metric { bytes: 2, chars: 1 });
    assert_eq!(buffer.to_gapped_pos(Metric { bytes: 6, chars: 4 }), Metric { bytes: 9, chars: 4 });
    assert_eq!(buffer.to_gapped_pos(Metric { bytes: 5, chars: 3 }), Metric { bytes: 8, chars: 3 });
    assert_eq!(buffer.to_gapped_pos(Metric { bytes: 3, chars: 2 }), Metric { bytes: 3, chars: 2 });
    assert_eq!(buffer.to_str(0, 5), "ƽaΘ");
    assert_eq!(buffer.to_str(8, 10), "ej");
}

#[test]
fn char_to_byte_in_a_long_text() {
    let text = "añb".repeat(100);
    let mut buffer = from(&text);
    buffer.set_cursor(150);
    buffer.insert("Θ");
    let text = buffer.to_string();
    for (chars, (bytes, _)) in text.char_indices().enumerate() {
        let place = buffer.char_to_byte(chars);
        let abs = buffer.to_abs_pos(Metric { bytes: place, chars });
        assert_eq!(abs.bytes, bytes);
    }
    assert_eq!(buffer.char_to_byte(301), buffer.capacity());
}

#[test]
fn move_gap_keeps_text_and_cursor() {
    let mut buffer = from("abΘdef");
    buffer.set_cursor(3);
    for gap in [6, 0, 3, 2, 5, 1, 4, 4, 0] {
        buffer.move_gap(Metric { bytes: buffer.char_to_byte(gap), chars: gap });
        assert_eq!(buffer.gap_chars(), gap);
        assert_eq!(buffer.gap_len(), 5);
        check(&buffer, "abΘdef", 3);
    }
}

#[test]
fn delete_range_in_each_place() {
    // Before the gap.
    let mut buffer = from("abΘdef");
    buffer.move_gap(Metric { bytes: buffer.char_to_byte(6), chars: 6 });
    buffer.set_cursor(4);
    buffer.delete_range(1, 3);
    assert_eq!(buffer.rendering(), "a________def");
    check(&buffer, "adef", 2);
    // After the gap.
    let mut buffer = from("abΘdef");
    buffer.set_cursor(3);
    buffer.delete_range(1, 3);
    assert_eq!(buffer.rendering(), "a________def");
    check(&buffer, "adef", 1);
    // Across the gap.
    let mut buffer = from("abΘdef");
    buffer.move_gap(Metric { bytes: buffer.char_to_byte(2), chars: 2 });
    buffer.set_cursor(6);
    buffer.delete_range(1, 4);
    assert_eq!(buffer.rendering(), "a_________ef");
    check(&buffer, "aef", 3);
}

#[test]
fn cursor_follows_a_removal() {
    let after = |cursor: usize| {
        let mut buffer = from("abcdefgh");
        buffer.set_cursor(cursor);
        buffer.delete_range(2, 5);
        buffer.cursor().chars
    };
    assert_eq!(after(0), 0);
    assert_eq!(after(2), 2);
    assert_eq!(after(3), 2);
    assert_eq!(after(4), 2);
    assert_eq!(after(5), 2);
    assert_eq!(after(6), 3);
    assert_eq!(after(8), 5);
}

#[test]
fn byte_helpers() {
    let mut data = vec![1u8, 2, 3, 4, 5];
    write_bytes(&mut data, 1, &[9, 8]);
    assert_eq!(data, vec![1, 9, 8, 4, 5]);
    write_bytes(&mut data, 5, &[]);
    assert_eq!(data, vec![1, 9, 8, 4, 5]);
    assert!(bytes_equal(&[1, 2], &[1, 2]));
    assert!(!bytes_equal(&[1, 2], &[1, 3]));
    assert!(!bytes_equal(&[1, 2], &[1]));
    assert!(bytes_equal(&[], &[]));
}

#[test]
fn try_insert_inserts() {
    let mut buffer = from("world");
    assert!(buffer.try_insert("hello "));
    check(&buffer, "hello world", 6);
    assert_eq!(buffer.gap_size(), 5);
    assert_eq!(Buffer::new().gap_size(), GAP_SIZE);
    let buffer = Buffer::default();
    assert_eq!(buffer.capacity(), 0);
    check(&buffer, "", 0);
}

#[test]
fn try_read_refuses_bad_ranges() {
    let buffer = from("aΘb");
    assert_eq!(buffer.try_read(0..4), Some(Cow::Borrowed("aΘb")));
    assert_eq!(buffer.try_read(1..3), Some(Cow::Borrowed("Θ")));
    assert_eq!(buffer.try_read(2..4), Some(Cow::Borrowed("b")));
    assert_eq!(buffer.try_read(2..3), Some(Cow::Borrowed("")));
    // Inside one character: the start would pass the end.
    assert_eq!(buffer.try_read(2..2), None);
    assert_eq!(buffer.try_read(3..2), None);
    assert_eq!(buffer.try_read(0..5), None);
    assert_eq!(buffer.try_read(5..5), None);
}

/// A small deterministic generator of numbers.
struct Numbers(u64);

impl Numbers {
    fn next(&mut self, below: usize) -> usize {
        self.0 = self.0.wrapping_mul(6364136223846793005).wrapping_add(1442695040888963407);
        ((self.0 >> 33) as usize) % below
    }
}

fn removed(text: &str, lo: usize, hi: usize) -> String {
    let chars: Vec<char> = text.chars().collect();
    chars[..lo].iter().chain(chars[hi..].iter()).collect()
}

#[test]
fn random_edit_script_matches_a_string() {
    let pieces = ["a", "Θ", "𝄞", "", "hello ", "ƽaejcoeuz", "\n\n", "a piece longer than any gap here"];
    for seed in 0..20 {
        let mut numbers = Numbers(seed);
        let mut buffer = from("stärt");
        let mut model = String::from("stärt");
        let mut cursor = 0;
        for _ in 0..300 {
            let len = model.chars().count();
            match numbers.next(6) {
                0 => {
                    let piece = pieces[numbers.next(pieces.len())];
                    buffer.insert(piece);
                    let at = model.char_indices().nth(cursor).map_or(model.len(), |(i, _)| i);
                    model.insert_str(at, piece);
                    cursor += piece.chars().count();
                }
                1 => {
                    let (beg, end) = (numbers.next(len + 3), numbers.next(len + 3));
                    buffer.delete_range(beg, end);
                    let (lo, hi) = (beg.min(end).min(len), beg.max(end).min(len));
                    model = removed(&model, lo, hi);
                    cursor = if cursor <= lo {
                        cursor
                    } else if cursor >= hi {
                        cursor - (hi - lo)
                    } else {
                        lo
                    };
                }
                2 => {
                    let pos = numbers.next(len + 3);
                    buffer.set_cursor(pos);
                    cursor = pos.min(len);
                }
                3 => {
                    let size = numbers.next(4);
                    buffer.delete_backwards(size);
                    let size = size.min(cursor);
                    model = removed(&model, cursor - size, cursor);
                    cursor -= size;
                }
                4 => {
                    let size = numbers.next(4);
                    buffer.delete_forwards(size);
                    model = removed(&model, cursor, (cursor + size).min(len));
                }
                _ => {
                    let start = numbers.next(len + 1);
                    let end = start + numbers.next(len + 1 - start);
                    match numbers.next(3) {
                        0 => buffer.move_gap_out_of(None, None),
                        1 => buffer.move_gap_out_of(Some(start), Some(end)),
                        _ => buffer.move_gap_out_of(Some(start), None),
                    }
                }
            }
            check(&buffer, &model, cursor);
        }
    }
}
