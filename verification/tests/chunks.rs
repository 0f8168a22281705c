use text_buffer::chunks::{is_char_boundary, metrics, MetricBuilder, METRIC_SIZE};
use text_buffer::metric::{Metric, MAX_LEAF};

fn m(bytes: usize, chars: usize) -> Metric {
    Metric { bytes, chars }
}

#[test]
fn char_boundary_bytes() {
    assert!(is_char_boundary(0x00));
    assert!(is_char_boundary(0x7f));
    assert!(!is_char_boundary(0x80));
    assert!(!is_char_boundary(0xbf));
    assert!(is_char_boundary(0xc0));
    assert!(is_char_boundary(0xff));
}

#[test]
fn metrics_counts_bytes_and_chars() {
    assert_eq!(metrics(""), m(0, 0));
    assert_eq!(metrics("hello"), m(5, 5));
    assert_eq!(metrics("héllo"), m(6, 5));
    assert_eq!(metrics("Θƽ𝄞"), m(8, 3));
}

#[test]
fn metric_arithmetic() {
    assert_eq!(Metric::zero(), m(0, 0));
    assert_eq!(m(3, 2).plus(m(4, 4)), m(7, 6));
    assert_eq!(m(7, 6).minus(m(4, 4)), m(3, 2));
}

#[test]
fn leaf_sizes() {
    assert_eq!(METRIC_SIZE, 32);
    assert_eq!(MAX_LEAF, 64);
}

#[test]
fn chunks_of_empty_string() {
    let mut builder = MetricBuilder::new("");
    assert_eq!(builder.size_hint(), (0, None));
    assert_eq!(builder.next(), None);
    assert_eq!(MetricBuilder::new("").collect(), vec![]);
}

#[test]
fn chunks_of_short_string() {
    assert_eq!(MetricBuilder::new("héllo").collect(), vec![m(6, 5)]);
}

#[test]
fn chunks_of_ascii() {
    let text = "a".repeat(70);
    let mut builder = MetricBuilder::new(&text);
    assert_eq!(builder.size_hint(), (3, None));
    assert_eq!(builder.next(), Some(m(32, 32)));
    assert_eq!(builder.size_hint(), (2, None));
    assert_eq!(builder.next(), Some(m(32, 32)));
    assert_eq!(builder.next(), Some(m(6, 6)));
    assert_eq!(builder.next(), None);
    assert_eq!(builder.next(), None);
}

#[test]
fn chunks_end_on_char_boundaries() {
    // The first cut is aimed at byte 32, which is the second byte of `é`.
    let text = format!("{}é{}", "a".repeat(31), "b".repeat(10));
    assert_eq!(MetricBuilder::new(&text).collect(), vec![m(31, 31), m(12, 11)]);
    // Here it is the fourth byte of a four-byte character.
    let text = format!("{}𝄞{}", "a".repeat(29), "b".repeat(40));
    assert_eq!(MetricBuilder::new(&text).collect(), vec![m(29, 29), m(35, 32), m(9, 9)]);
}

#[test]
fn chunks_of_exact_multiple() {
    let text = "x".repeat(64);
    assert_eq!(MetricBuilder::new(&text).collect(), vec![m(32, 32), m(32, 32)]);
}
