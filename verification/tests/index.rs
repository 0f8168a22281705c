use text_buffer::index::BufferMetrics;
use text_buffer::metric::Metric;

fn m(bytes: usize, chars: usize) -> Metric {
    Metric { bytes, chars }
}

fn sample() -> BufferMetrics {
    BufferMetrics::build(&vec![m(3, 3), m(4, 2), m(5, 5)])
}

#[test]
fn index_empty() {
    let index = BufferMetrics::new();
    assert_eq!(index.len(), m(0, 0));
    assert_eq!(index.height(), None);
    assert_eq!(index.leaves(), vec![]);
    assert_eq!(index.search_char(0), (m(0, 0), 0));
}

#[test]
fn index_build_keeps_the_leaves() {
    let index = sample();
    assert_eq!(index.leaves(), vec![m(3, 3), m(4, 2), m(5, 5)]);
    assert_eq!(index.len(), m(12, 10));
}

#[test]
fn index_search_char() {
    let index = sample();
    assert_eq!(index.search_char(0), (m(0, 0), 0));
    assert_eq!(index.search_char(2), (m(0, 0), 2));
    assert_eq!(index.search_char(3), (m(3, 3), 0));
    assert_eq!(index.search_char(4), (m(3, 3), 1));
    assert_eq!(index.search_char(5), (m(7, 5), 0));
    assert_eq!(index.search_char(9), (m(7, 5), 4));
    assert_eq!(index.search_char(10), (m(12, 10), 0));
}

#[test]
fn index_insert_between_leaves() {
    let mut index = sample();
    index.insert(m(3, 3), &vec![m(62, 31), m(1, 1)]);
    assert_eq!(index.leaves(), vec![m(3, 3), m(62, 31), m(1, 1), m(4, 2), m(5, 5)]);
    assert_eq!(index.len(), m(75, 42));
}

#[test]
fn index_insert_at_the_ends() {
    let mut index = sample();
    index.insert(m(0, 0), &vec![m(1, 1)]);
    index.insert(m(13, 11), &vec![m(60, 20)]);
    assert_eq!(index.leaves(), vec![m(1, 1), m(3, 3), m(4, 2), m(5, 5), m(60, 20)]);
}

#[test]
fn index_insert_inside_a_leaf_cuts_it() {
    let mut index = sample();
    index.insert(m(5, 4), &vec![m(63, 63)]);
    assert_eq!(index.leaves(), vec![m(3, 3), m(2, 1), m(63, 63), m(2, 1), m(5, 5)]);
    assert_eq!(index.search_char(4), (m(5, 4), 0));
    assert_eq!(index.search_char(67), (m(68, 67), 0));
}

#[test]
fn index_insert_into_empty() {
    let mut index = BufferMetrics::new();
    index.insert(m(0, 0), &vec![m(2, 2), m(3, 1)]);
    assert_eq!(index.leaves(), vec![m(2, 2), m(3, 1)]);
}

#[test]
fn index_delete_cuts_both_ends() {
    let mut index = sample();
    index.delete(m(1, 1), m(9, 7));
    assert_eq!(index.leaves(), vec![m(4, 4)]);
    assert_eq!(index.len(), m(4, 4));

    let mut index = BufferMetrics::build(&vec![m(30, 30), m(40, 20), m(50, 50)]);
    index.delete(m(20, 20), m(80, 60));
    assert_eq!(index.leaves(), vec![m(20, 20), m(40, 40)]);
}

#[test]
fn index_delete_whole_leaves() {
    let mut index = sample();
    index.delete(m(3, 3), m(7, 5));
    assert_eq!(index.leaves(), vec![m(8, 8)]);
    index.delete(m(0, 0), m(8, 8));
    assert_eq!(index.leaves(), vec![]);
    assert_eq!(index.height(), None);
}

#[test]
fn index_delete_inside_one_leaf() {
    let mut index = sample();
    index.delete(m(8, 6), m(10, 8));
    assert_eq!(index.leaves(), vec![m(3, 3), m(4, 2), m(3, 3)]);
}

#[test]
fn index_insert_fills_the_leaf_before() {
    let mut index = sample();
    index.insert(m(3, 3), &vec![m(2, 1), m(1, 1)]);
    assert_eq!(index.leaves(), vec![m(5, 4), m(1, 1), m(4, 2), m(5, 5)]);
    index.insert(m(15, 12), &vec![m(59, 20)]);
    assert_eq!(index.leaves(), vec![m(5, 4), m(1, 1), m(4, 2), m(64, 25)]);
    index.insert(m(74, 32), &vec![m(1, 1)]);
    assert_eq!(index.leaves(), vec![m(5, 4), m(1, 1), m(4, 2), m(64, 25), m(1, 1)]);
    // Inside a leaf: the piece before the cut takes the chunk.
    index.insert(m(7, 6), &vec![m(8, 8)]);
    assert_eq!(
        index.leaves(),
        vec![m(5, 4), m(1, 1), m(9, 9), m(3, 1), m(64, 25), m(1, 1)]
    );
}

#[test]
fn index_of_typed_text_has_full_leaves() {
    let mut index = BufferMetrics::new();
    for i in 0..1000 {
        index.insert(m(i, i), &vec![m(1, 1)]);
    }
    let leaves = index.leaves();
    assert_eq!(leaves.len(), 16);
    assert_eq!(leaves[0], m(64, 64));
    assert_eq!(leaves[14], m(64, 64));
    assert_eq!(leaves[15], m(40, 40));
    assert_eq!(index.search_char(130), (m(128, 128), 2));
    assert!(index.height().unwrap() <= 5);
}

#[test]
fn index_stays_balanced() {
    let mut index = BufferMetrics::new();
    for i in 0..1000 {
        index.insert(m(40 * i, 40 * i), &vec![m(40, 40)]);
    }
    assert_eq!(index.len(), m(40000, 40000));
    assert_eq!(index.leaves().len(), 1000);
    // A height-balanced tree with 1000 leaves is at most 14 high.
    assert!(index.height().unwrap() <= 14);
    for i in 0..1000 {
        assert_eq!(index.search_char(40 * i + 5), (m(40 * i, 40 * i), 5));
    }
    for _ in 0..990 {
        index.delete(m(120, 120), m(160, 160));
    }
    assert_eq!(index.len(), m(400, 400));
    assert_eq!(index.leaves().len(), 10);
    assert!(index.height().unwrap() <= 5);

    let mut front = BufferMetrics::new();
    for _ in 0..1000 {
        front.insert(m(0, 0), &vec![m(2, 1)]);
    }
    assert_eq!(front.leaves().len(), 1000);
    assert!(front.height().unwrap() <= 14);
    assert_eq!(front.search_char(500), (m(1000, 500), 0));
}
