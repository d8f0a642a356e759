use ted::buffer::{build_line_info, Buffer, LineInfo};
use ted::error::Error;

#[test]
fn buffer_insert_no_lines() {
    let mut buf = Buffer::from_string("helloworld!\nbye".to_string());
    buf.insert(5, ", ").unwrap();

    assert!(buf.buffer().as_str() == "hello, world!\nbye");
    assert!(*buf.line_info() == vec![LineInfo { buf_index: 0, length: 13 },
                                     LineInfo { buf_index: 14, length: 3 }]);
}

#[test]
fn buffer_insert_two_lines() {
    let mut buf = Buffer::from_string("hello\nbye".to_string());
    buf.insert(5, "s\nworld").unwrap();

    assert!(buf.buffer().as_str() == "hellos\nworld\nbye");
    assert!(*buf.line_info() == vec![LineInfo { buf_index: 0, length: 6 },
                                     LineInfo { buf_index: 7, length: 5 },
                                     LineInfo { buf_index: 13, length: 3 }]);
}

#[test]
fn buffer_remove_same_line() {
    let mut buf = Buffer::from_string("hello, world!\nbye".to_string());
    let removed = buf.remove(5, 6).unwrap();

    assert!(buf.buffer().as_str() == "helloworld!\nbye");
    assert!(removed.as_str() == ", ");
    assert!(*buf.line_info() == vec![LineInfo { buf_index: 0, length: 11 },
                                     LineInfo { buf_index: 12, length: 3 }]);
}

#[test]
fn buffer_remove_two_lines() {
    let mut buf = Buffer::from_string("hello, world!\nbye".to_string());
    let removed = buf.remove(5, 15).unwrap();

    assert!(buf.buffer().as_str() == "helloe");
    assert!(removed.as_str() == ", world!\nby");
    assert!(*buf.line_info() == vec![LineInfo { buf_index: 0, length: 6 }]);
}

#[test]
fn buffer_remove_multi_line() {
    let mut buf = Buffer::from_string("hello, world!\nbye\nhola".to_string());
    let removed = buf.remove(5, 19).unwrap();

    assert!(buf.buffer().as_str() == "hellola");
    assert!(removed.as_str() == ", world!\nbye\nho");
    assert!(*buf.line_info() == vec![LineInfo { buf_index: 0, length: 7 }]);
}

#[test]
fn build_line_info_empty() {
    let line_info = build_line_info("");

    assert!(line_info == vec![LineInfo { buf_index: 0, length: 0 }]);
}

#[test]
fn build_line_info_one() {
    let line_info = build_line_info("hello");

    assert!(line_info == vec![LineInfo { buf_index: 0, length: 5 }]);
}

#[test]
fn build_line_info_two() {
    let line_info = build_line_info("hello\nfoo");

    assert!(line_info == vec![LineInfo { buf_index: 0, length: 5 },
                              LineInfo { buf_index: 6, length: 3 }]);
}

#[test]
fn build_line_info_trailing_newline() {
    let line_info = build_line_info("a\n\nbc\n");

    assert_eq!(line_info, vec![LineInfo { buf_index: 0, length: 1 },
                               LineInfo { buf_index: 2, length: 0 },
                               LineInfo { buf_index: 3, length: 2 },
                               LineInfo { buf_index: 6, length: 0 }]);
}

#[test]
fn build_line_info_counts_bytes() {
    // "é" is two bytes wide, so the second line starts at byte 4.
    let line_info = build_line_info("é!\nx");

    assert_eq!(line_info, vec![LineInfo { buf_index: 0, length: 3 },
                               LineInfo { buf_index: 4, length: 1 }]);
}

#[test]
fn line_index_is_consistent_with_text() {
    let text = "one\ntwo\n\nfour";
    let buf = Buffer::from_string(text.to_string());
    let bytes = text.as_bytes();
    let lines = buf.line_info();
    assert_eq!(lines[0].buf_index, 0);
    for i in 0..lines.len() {
        if i > 0 {
            assert_eq!(bytes[lines[i].buf_index - 1], b'\n');
        }
        let end = lines[i].buf_index + lines[i].length;
        assert!(end == bytes.len() || bytes[end] == b'\n');
    }
    assert_eq!(buf.line_count(), 4);
}

#[test]
fn buffer_new_has_one_empty_line() {
    let buf = Buffer::new();
    assert_eq!(buf.len(), 0);
    assert_eq!(buf.line_count(), 1);
    assert_eq!(*buf.line_info(), vec![LineInfo { buf_index: 0, length: 0 }]);
    assert_eq!(buf.line(0), Ok(""));
}

#[test]
fn buffer_line_returns_text_without_newline() {
    let buf = Buffer::from_string("hello\nfoo".to_string());
    assert_eq!(buf.line(0), Ok("hello"));
    assert_eq!(buf.line(1), Ok("foo"));
    assert_eq!(buf.line(2), Err(Error::OutOfRange));
}

#[test]
fn last_column_of_lines() {
    assert_eq!(LineInfo { buf_index: 0, length: 5 }.last_column(), 4);
    assert_eq!(LineInfo { buf_index: 3, length: 1 }.last_column(), 0);
    assert_eq!(LineInfo { buf_index: 3, length: 0 }.last_column(), 0);
}

#[test]
fn buffer_insert_at_end_and_beyond() {
    let mut buf = Buffer::from_string("ab".to_string());
    assert_eq!(buf.insert(2, "c"), Ok(()));
    assert_eq!(buf.buffer().as_str(), "abc");
    assert_eq!(buf.insert(4, "d"), Err(Error::OutOfRange));
    assert_eq!(buf.buffer().as_str(), "abc");
}

#[test]
fn buffer_insert_char_puts_the_character_in() {
    let mut buf = Buffer::from_string("ac".to_string());
    assert_eq!(buf.insert_char(1, 'b'), Ok(()));
    assert_eq!(buf.buffer().as_str(), "abc");
    assert_eq!(buf.insert_char(3, '\n'), Ok(()));
    assert_eq!(buf.buffer().as_str(), "abc\n");
    assert_eq!(buf.line_count(), 2);
    assert_eq!(buf.insert_char(9, 'x'), Err(Error::OutOfRange));
}

#[test]
fn buffer_insert_char_wide_character() {
    let mut buf = Buffer::from_string("ab".to_string());
    assert_eq!(buf.insert_char(1, 'é'), Ok(()));
    assert_eq!(buf.buffer().as_str(), "aéb");
    assert_eq!(buf.len(), 4);
}

#[test]
fn buffer_rejects_offsets_inside_a_character() {
    let mut buf = Buffer::from_string("aéb".to_string());
    assert_eq!(buf.insert(2, "x"), Err(Error::OutOfRange));
    assert_eq!(buf.insert_char(2, 'x'), Err(Error::OutOfRange));
    assert_eq!(buf.remove(1, 1), Err(Error::OutOfRange));
    assert_eq!(buf.remove(2, 3), Err(Error::OutOfRange));
    assert_eq!(buf.remove_char(2), Err(Error::OutOfRange));
    assert_eq!(buf.buffer().as_str(), "aéb");
    assert_eq!(buf.remove(1, 2), Ok("é".to_string()));
    assert_eq!(buf.buffer().as_str(), "ab");
}

#[test]
fn buffer_remove_rejects_bad_ranges() {
    let mut buf = Buffer::from_string("abc".to_string());
    assert_eq!(buf.remove(2, 1), Err(Error::OutOfRange));
    assert_eq!(buf.remove(0, 3), Err(Error::OutOfRange));
    assert_eq!(buf.remove(3, 3), Err(Error::OutOfRange));
    assert_eq!(buf.buffer().as_str(), "abc");
    assert_eq!(buf.remove(0, 2), Ok("abc".to_string()));
    assert_eq!(buf.len(), 0);
}

#[test]
fn buffer_remove_char_returns_the_character() {
    let mut buf = Buffer::from_string("aéb\n".to_string());
    assert_eq!(buf.remove_char(1), Ok('é'));
    assert_eq!(buf.buffer().as_str(), "ab\n");
    assert_eq!(buf.remove_char(2), Ok('\n'));
    assert_eq!(buf.line_count(), 1);
    assert_eq!(buf.remove_char(2), Err(Error::OutOfRange));
}

#[test]
fn buffer_slice_and_char_at_leave_the_text() {
    let buf = Buffer::from_string("aéb".to_string());
    assert_eq!(buf.slice(1, 3), Ok("éb"));
    assert_eq!(buf.slice(1, 1), Err(Error::OutOfRange));
    assert_eq!(buf.char_at(1), Ok('é'));
    assert_eq!(buf.char_at(2), Err(Error::OutOfRange));
    assert_eq!(buf.char_at(4), Err(Error::OutOfRange));
    assert_eq!(buf.buffer().as_str(), "aéb");
}

#[test]
fn buffer_clear_keeps_the_line_index_in_step() {
    let mut buf = Buffer::from_string("a\nb".to_string());
    buf.clear();
    assert_eq!(buf.len(), 0);
    assert_eq!(*buf.line_info(), vec![LineInfo { buf_index: 0, length: 0 }]);
}
