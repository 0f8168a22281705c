use std::borrow::Cow;
use text_buffer::buffer::Buffer;
use text_buffer::metric::Metric;

const GAP_SIZE: usize = 5;

fn from(text: &str) -> Buffer {
    Buffer::with_gap_size(text, GAP_SIZE)
}

fn new() -> Buffer {
    Buffer::new_with_gap_size(GAP_SIZE)
}

#[test]
fn create() {
    let string = "hello buffer";
    let buffer = from(string);
    assert_eq!(buffer.capacity(), string.len() + GAP_SIZE);
    assert_eq!(buffer.gap_end(), GAP_SIZE);
    assert_eq!(buffer.gap_start(), 0);
}

#[test]
fn test_empty() {
    let mut buffer = Buffer::new();
    assert_eq!(buffer.capacity(), 0);
    assert_eq!(buffer.gap_len(), 0);
    assert_eq!(buffer, "");
    buffer.insert("hello");
    assert_eq!(buffer, "hello");

    let mut buffer = Buffer::new();
    buffer.delete_range(0, 0);
    assert_eq!(buffer, "");
    buffer.delete_range(0, 5);
    assert_eq!(buffer, "");
}

#[test]
fn insert() {
    let string = "hello buffer";
    let mut buffer = from(string);
    println!("insert");
    buffer.len();
    buffer.insert_char('x');
    println!("insert");
    buffer.len();
    println!("insert");
    assert_eq!(buffer.capacity(), string.len() + GAP_SIZE);
    assert_eq!(buffer.gap_end(), GAP_SIZE);
    assert_eq!(buffer.gap_start(), 1);
    assert_eq!(buffer, "xhello buffer");
}

#[test]
fn insert_slice() {
    let string = "world";
    let new_string = "hi ";
    let mut buffer = from(string);
    buffer.insert(new_string);
    buffer.move_gap_out_of(None, None);
    assert_eq!(buffer, "hi world");
    buffer.insert("starting Θ text ");
    assert_eq!(buffer, "hi starting Θ text world");
    buffer.set_cursor(21);
    buffer.insert("x");
    assert_eq!(buffer, "hi starting Θ text woxrld");
}

#[test]
fn empty() {
    let mut buffer = from("");
    assert_eq!(buffer, "");
    buffer.delete_range(1, 2);
    assert_eq!(buffer, "");
}

#[test]
fn test_delete() {
    let world = "world";
    let hello = "hello ";
    let mut buffer = from(world);
    buffer.insert(hello);
    buffer.delete_backwards(4);
    assert_eq!(buffer.gap_start(), hello.len() - 4);
    assert_eq!(buffer.gap_end(), hello.len() + GAP_SIZE);
    buffer.move_gap_out_of(None, None);
    buffer.move_gap_out_of(None, None);
    buffer.move_gap(Metric { bytes: buffer.char_to_byte(7), chars: 7 });
    buffer.move_gap_out_of(None, None);
    assert_eq!(buffer, "heworld");
}

#[test]
fn delete_forwards() {
    let world = "world";
    let hello = "hello ";
    let mut buffer = from(world);
    buffer.insert(hello);
    buffer.delete_forwards(4);
    buffer.move_gap_out_of(None, None);
    assert_eq!(buffer, "hello d");
}

#[test]
fn buffer_test_delete_region() {
    let mut buffer = from("world");
    buffer.insert("hello ");
    buffer.delete_range(1, 3);
    buffer.move_gap_out_of(None, None);
    assert_eq!(buffer, "hlo world");
    buffer.delete_range(4, 6);
    buffer.move_gap_out_of(None, None);
    assert_eq!(buffer, "hlo rld");
}

#[test]
fn test_delete_nothing() {
    let mut buffer = from("world");
    buffer.insert("hello ");
    buffer.delete_range(3, 3);
    assert_eq!(buffer, "hello world");
}

#[test]
fn edge_cases() {
    let mut buffer = from(":?abdix7");
    assert_eq!(buffer.len(), 8);
    buffer.delete_range(2, 5);
    assert_eq!(buffer.len(), 5);
    buffer.delete_range(5, 4);
    assert_eq!(buffer.len(), 4);
    buffer.delete_range(0, 3);

    let mut buffer = from("xyz");
    buffer.insert("abc");
    buffer.set_cursor(2);
    buffer.delete_range(1, 4);
    assert_eq!(buffer, "ayz");
    buffer.insert("b");
    assert_eq!(buffer, "abyz");

    let mut buffer = from("ƽaejcoeuz");
    buffer.delete_range(5, 6);
    buffer.delete_range(1, 8);
    assert_eq!(buffer, "ƽ");
}

#[test]
fn test_delete_to_gap() {
    let mut buffer = from("\n\n\n\nAutomerge is too");
    buffer.insert("per. Some graduate students in ");
    buffer.set_cursor(10);
    buffer.delete_forwards(21);
    assert_eq!(buffer, "per. Some \n\n\n\nAutomerge is too");
}

#[test]
fn test_bounds() {
    let mut buffer = from("world");
    buffer.insert("hello ");
    buffer.delete_range(3, 100);
    assert_eq!(buffer, "hel");
    buffer.delete_range(10, 1);
    assert_eq!(buffer, "h");

    let mut buffer = from(",skeobg x");
    buffer.delete_range(10, 10);
    assert_eq!(buffer.gap_len(), 5);

    let mut buffer = from("+skeocptv'eigp");
    buffer.delete_range(30, 6);
    assert_eq!(buffer.gap_len(), 13);
}

#[test]
fn resize() {
    let world = "world";
    let hello = "hello ";
    let mut buffer = from(world);
    buffer.insert(hello);
    assert_eq!(buffer.capacity(), hello.len() + world.len() + GAP_SIZE);
    assert_eq!(buffer.gap_end(), hello.len() + GAP_SIZE);
    assert_eq!(buffer.gap_start(), hello.len());
    assert_eq!(buffer, "hello world");
}

#[test]
fn cursor() {
    let string = "world";
    let new_string = "hi ";
    let mut buffer = from(string);
    buffer.insert(new_string);
    assert_eq!(buffer.gap_chars(), new_string.len());
}

#[test]
fn test_read() {
    let mut buffer = from("hello world");
    buffer.set_cursor(5);
    assert_eq!(buffer.read(0..0), Cow::Borrowed(""));
    assert_eq!(buffer.read(0..5), Cow::Borrowed("hello"));
    assert_eq!(buffer.read(5..11), Cow::Borrowed(" world"));
    assert_eq!(buffer.read(4..6), Cow::<str>::Owned(String::from("o ")));
}

#[test]
fn test_build_unicode() {
    let string = "aaaaaaaaaՂaaaaaaaaa";
    let _ = from(string);
}

#[test]
fn test_append() {
    let mut buffer = from("aa");
    buffer.set_cursor(3);
    let string = "B\u{1b}BBBBBB\u{1b}\0\0\0\0\0\0BB\u{1b}\u{1b}\u{1b}\u{1b}\u{1b}\u{1b}B\u{7}BBBBBBBBBBB\u{1b}\u{1b}\u{1b}B\u{7}BBBBBBBBBBBB\u{1b}\u{1b}B\u{7}BBBBBBBBB";
    buffer.insert(string);
}

#[test]
fn test_fuzzer() {
    let mut buffer = new();
    buffer.set_cursor(1);
    buffer.insert("Ղ\u{2}\u{2}\0\0\0");
    buffer.set_cursor(4);
    buffer.insert("&\0''''''''''''''''''''%'''''&\0''''''''''''''''''''%@@@@@@@@@@@@@@@@@@@@@@@@@@@@@@@@@@@@@@@@@@@@@@@@@@@@@@@@@@@@@@@@@@@@@@@@@@@@@@@@@@@@@@@@@@@@@@@@@@@@@@@@''''''''''");
    buffer.set_cursor(39);
    buffer.insert("'\u{2}&\0''''''''''''''''''''%''''''''''''''''''''''''''''");
    buffer.delete_range(184, 169);
    buffer.set_cursor(127);
    buffer.insert("00000000061288823:*********");
    buffer.set_cursor(132);
    buffer.insert("5''''''''''''''\0\0\0\0\0'''''''");
    buffer.set_cursor(97);
    buffer.insert("''?????????????????????z?????????????????????'''''\u{1d}\u{1d}\u{1d}\u{1d}\u{1d}\u{1d}\u{1d}\u{1d}\u{1d}\u{1d}\u{1d}\u{1d}\u{1d}\u{1d}\u{10}");
    buffer.delete_range(13, 138);
    buffer.set_cursor(25);
    buffer
        .insert("yyyyyyyyyyyyyy\u{2}\0\u{2}\0\0\u{1}\u{17}H\u{17}\u{17}\u{17}\u{17}\u{17}\0\0");
    buffer.set_cursor(138);
    buffer.insert("\u{17}?\u{17}\u{17}\u{17}\u{17}\u{17}\u{17}\u{17}\u{17}\u{17}\0\0\0\0\0\0\u{3}\0\0\0''''''''");
    buffer.set_cursor(39);
    buffer.insert("\0\0\0''''''''''");
    buffer.delete_range(247, 45);
}

#[test]
fn test_pos() {
    let mut buffer = new();
    buffer.set_cursor(1);
    buffer.insert("AAAAAAAAAAAAAAAAAAA");
    buffer.set_cursor(10);
    buffer.insert("AAAAAA\0\0AAAAAA");
    buffer.set_cursor(26);
}

#[test]
fn test_insert() {
    let mut buffer = new();
    for code in [104u32, 101, 108, 108, 111] {
        buffer.insert_char(char::from_u32(code).unwrap());
    }
    assert_eq!(buffer, "hello");
}

#[test]
fn editfns_test_delete_region() {
    let mut buffer = new();
    buffer.insert("hello");
    buffer.insert(" world");
    assert_eq!(buffer, "hello world");
    buffer.delete_range(1, 3);
    assert_eq!(buffer, "hlo world");
}
