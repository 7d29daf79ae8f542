use gap_buffer::GapBuffer;

fn buf_from_str(s: &str) -> GapBuffer {
    let mut buf = GapBuffer::with_capacity(s.len());
    buf.insert_str(0, s);
    buf
}

#[test]
fn insert_str_1() {
    let gap_buf = buf_from_str("12345678");
    let text = gap_buf.to_string();
    assert!(text == "12345678");
}

#[test]
fn insert_str_2() {
    let mut gap_buf = buf_from_str("12345678");
    gap_buf.insert_str(7, "9");

    let text = gap_buf.to_string();
    assert!(text == "123456798");
}

#[test]
fn insert_str_3() {
    let mut gap_buf = buf_from_str("12345678");
    gap_buf.insert_str(0, "0");

    let text = gap_buf.to_string();
    assert!(text == "012345678");
}

#[test]
fn insert_str_4() {
    let mut gap_buf = buf_from_str("0123456789.0123456789.0123456789");
    gap_buf.insert_str(0, "9876543210.");

    let text = gap_buf.to_string();
    assert!(text == "9876543210.0123456789.0123456789.0123456789");
}

#[test]
fn insert_str_5() {
    let mut gap_buf = buf_from_str("0123456789.0123456789.0123456789");
    gap_buf.insert_str(11, "9876543210.");

    let text = gap_buf.to_string();
    assert!(text == "0123456789.9876543210.0123456789.0123456789");
}

#[test]
fn remove_1() {
    let mut gap_buf = buf_from_str("12345678");
    gap_buf.remove(0..8).unwrap();

    let text = gap_buf.to_string();
    assert!(text == "");
}

#[test]
fn remove_2() {
    let mut gap_buf = buf_from_str("12345678");
    gap_buf.remove(0..1).unwrap();

    let text = gap_buf.to_string();
    assert!(text == "2345678");
}

#[test]
fn remove_3() {
    let mut gap_buf = buf_from_str("12345678");
    gap_buf.remove(7..8).unwrap();

    let text = gap_buf.to_string();
    assert!(text == "1234567");
}

#[test]
fn remove_4() {
    let mut gap_buf = buf_from_str("12345678");
    gap_buf.remove(3..6).unwrap();

    let text = gap_buf.to_string();
    assert!(text == "12378");
}

#[test]
#[should_panic]
fn remove_5() {
    let mut gap_buf = buf_from_str("12345678");
    gap_buf.remove(0..9).unwrap();
}

#[test]
fn remove_out_of_range_is_error() {
    let mut gap_buf = buf_from_str("12345678");
    let result = gap_buf.remove(0..9);
    assert!(result.is_err());
    // The failed call must not have truncated or otherwise changed anything.
    assert!(gap_buf.to_string() == "12345678");
}

#[test]
fn remove_empty_range_is_error() {
    let mut gap_buf = buf_from_str("12345678");
    assert!(gap_buf.remove(3..3).is_err());
    assert!(gap_buf.remove(5..3).is_err());
    assert!(gap_buf.to_string() == "12345678");
}

#[test]
fn remove_start_past_end_is_error() {
    let mut gap_buf = buf_from_str("12345678");
    assert!(gap_buf.remove(8..9).is_err());
    assert!(gap_buf.remove(100..200).is_err());
    assert!(gap_buf.to_string() == "12345678");
}

#[test]
fn growth_from_capacity_zero() {
    let mut gap_buf = GapBuffer::with_capacity(0);
    gap_buf.insert_str(0, "hello");
    assert!(gap_buf.to_string() == "hello");
}

#[test]
fn growth_keeps_earlier_content() {
    // Start well under the final size so the storage has to grow, more than
    // once and across chunk boundaries; nothing inserted earlier may be lost.
    let mut gap_buf = GapBuffer::with_capacity(2);
    let mut expected = String::new();
    for _ in 0..20 {
        let end = expected.len();
        gap_buf.insert_str(end, "0123456789");
        expected.push_str("0123456789");
    }
    assert!(gap_buf.to_string() == expected);
    assert_eq!(gap_buf.buf_len(), 200);
}

#[test]
fn growth_with_payload_larger_than_chunk() {
    let mut gap_buf = GapBuffer::with_capacity(0);
    let big: String = "abcdefghij".repeat(13);
    gap_buf.insert_str(0, &big);
    assert!(gap_buf.to_string() == big);
}

#[test]
fn consecutive_inserts_equal_one_concatenated_insert() {
    let mut twice = buf_from_str("12345678");
    twice.insert_str(3, "abc");
    twice.insert_str(6, "def");

    let mut once = buf_from_str("12345678");
    once.insert_str(3, "abcdef");

    assert!(twice.to_string() == once.to_string());
    assert!(once.to_string() == "123abcdef45678");
}

#[test]
fn round_trip_against_reference_string() {
    // Mirror a mixed edit sequence on a plain String and compare renders.
    let mut gap_buf = GapBuffer::with_capacity(4);
    let mut reference = String::new();

    let edits: [(usize, &str); 5] = [
        (0, "the quick brown fox"),
        (4, "very "),
        (0, ">> "),
        (27, " jumps"),
        (3, "_"),
    ];
    for (offset, text) in edits {
        gap_buf.insert_str(offset, text);
        reference.insert_str(offset, text);
        assert!(gap_buf.to_string() == reference);
    }

    gap_buf.remove(2..9).unwrap();
    reference.replace_range(2..9, "");
    assert!(gap_buf.to_string() == reference);

    gap_buf.remove(0..1).unwrap();
    reference.replace_range(0..1, "");
    assert!(gap_buf.to_string() == reference);

    let len = gap_buf.buf_len();
    gap_buf.remove(len - 3..len).unwrap();
    reference.replace_range(len - 3..len, "");
    assert!(gap_buf.to_string() == reference);
}

#[test]
fn multi_byte_text_round_trips() {
    let mut gap_buf = GapBuffer::with_capacity(0);
    gap_buf.insert_str(0, "snowman: \u{2603}, notes: \u{1D11E}");
    let text = gap_buf.to_string();
    assert!(text == "snowman: \u{2603}, notes: \u{1D11E}");
    // Remove the four bytes of the final character, byte-wise.
    let len = gap_buf.buf_len();
    gap_buf.remove(len - 4..len).unwrap();
    assert!(gap_buf.to_string() == "snowman: \u{2603}, notes: ");
}

#[test]
fn head_and_tail_split_at_the_gap() {
    let mut gap_buf = buf_from_str("12345678");
    gap_buf.insert_str(3, "x");
    // After an insertion the gap sits right behind the inserted bytes.
    assert!(gap_buf.head() == "123x");
    assert!(gap_buf.tail() == "45678");

    gap_buf.remove(4..6).unwrap();
    // After a removal the gap sits where the removed bytes were.
    assert!(gap_buf.head() == "123x");
    assert!(gap_buf.tail() == "678");
}

#[test]
fn buf_len_and_gap_len_track_content_and_capacity() {
    let mut gap_buf = GapBuffer::with_capacity(8);
    assert_eq!(gap_buf.buf_len(), 0);
    assert_eq!(gap_buf.gap_len(), 8);

    gap_buf.insert_str(0, "abc");
    assert_eq!(gap_buf.buf_len(), 3);
    assert_eq!(gap_buf.gap_len(), 5);

    gap_buf.remove(1..2).unwrap();
    assert_eq!(gap_buf.buf_len(), 2);
    assert_eq!(gap_buf.gap_len(), 6);
}

#[test]
fn clear_empties_but_keeps_capacity() {
    let mut gap_buf = buf_from_str("12345678");
    gap_buf.clear();
    assert_eq!(gap_buf.buf_len(), 0);
    assert_eq!(gap_buf.gap_len(), 8);
    assert!(gap_buf.to_string() == "");

    // The cleared buffer is ready for fresh insertions.
    gap_buf.insert_str(0, "new");
    assert!(gap_buf.to_string() == "new");
}

#[test]
fn content_bytes_match_rendered_text() {
    let mut gap_buf = buf_from_str("12345678");
    gap_buf.insert_str(4, "-");
    let bytes = gap_buf.content_bytes();
    assert_eq!(bytes, b"1234-5678".to_vec());
}
