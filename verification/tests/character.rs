use text_buffer::character::unibyte_string;

#[test]
fn unibyte_string_of_bytes() {
    assert_eq!(unibyte_string(&[]), Ok(vec![]));
    assert_eq!(unibyte_string(&[104, 0, 255]), Ok(vec![104, 0, 255]));
}

#[test]
fn unibyte_string_names_the_first_value_out_of_range() {
    assert_eq!(unibyte_string(&[256]), Err(0));
    assert_eq!(unibyte_string(&[1, 2, -1, 300]), Err(2));
    assert_eq!(unibyte_string(&[1, i64::MAX]), Err(1));
    assert_eq!(unibyte_string(&[1, i64::MIN, 3]), Err(1));
}
