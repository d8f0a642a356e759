use ted::buffer::Buffer;
use ted::cursor::Cursor;
use ted::operation::Operation;
use ted::view::Event;

fn at(line: u64, column: u64, buf_index: u64) -> Cursor {
    Cursor { line, column, buf_index }
}

#[test]
fn cursor_moves_up_and_down_keeping_the_column() {
    let buffer = Buffer::from_string("hello\nhi\n\nworld".to_string());
    let mut cursor = at(0, 4, 4);
    cursor.move_down(&buffer);
    assert_eq!(cursor, at(1, 4, 8));
    cursor.move_down(&buffer);
    assert_eq!(cursor, at(2, 4, 9));
    cursor.move_down(&buffer);
    assert_eq!(cursor, at(3, 4, 14));
    cursor.move_down(&buffer);
    assert_eq!(cursor, at(3, 4, 14));
    cursor.move_up(&buffer);
    cursor.move_up(&buffer);
    cursor.move_up(&buffer);
    assert_eq!(cursor, at(0, 4, 4));
    cursor.move_up(&buffer);
    assert_eq!(cursor, at(0, 4, 4));
}

#[test]
fn cursor_moves_left_across_lines() {
    let buffer = Buffer::from_string("ab\n\ncd".to_string());
    let mut cursor = at(2, 1, 5);
    cursor.move_left(&buffer);
    assert_eq!(cursor, at(2, 0, 4));
    cursor.move_left(&buffer);
    assert_eq!(cursor, at(1, 0, 3));
    cursor.move_left(&buffer);
    assert_eq!(cursor, at(0, 2, 2));
    cursor.move_left(&buffer);
    assert_eq!(cursor, at(0, 1, 1));
    cursor.move_left(&buffer);
    cursor.move_left(&buffer);
    assert_eq!(cursor, at(0, 0, 0));
    // A column beyond the line falls back to the last column.
    let mut cursor = at(0, 7, 2);
    cursor.move_left(&buffer);
    assert_eq!(cursor, at(0, 1, 1));
    // On an empty first line a column beyond the line stays.
    let empty = Buffer::new();
    let mut cursor = at(0, 3, 0);
    cursor.move_left(&empty);
    assert_eq!(cursor, at(0, 3, 0));
    // On an empty line below, it goes to the end of the line above.
    let mut cursor = at(1, 3, 3);
    cursor.move_left(&buffer);
    assert_eq!(cursor, at(0, 2, 2));
}

#[test]
fn cursor_moves_right_across_lines() {
    let buffer = Buffer::from_string("ab\n\ncd".to_string());
    let mut cursor = at(0, 0, 0);
    cursor.move_right(&buffer);
    assert_eq!(cursor, at(0, 1, 1));
    cursor.move_right(&buffer);
    assert_eq!(cursor, at(0, 2, 2));
    cursor.move_right(&buffer);
    assert_eq!(cursor, at(1, 0, 3));
    cursor.move_right(&buffer);
    assert_eq!(cursor, at(2, 0, 4));
    cursor.move_right(&buffer);
    cursor.move_right(&buffer);
    assert_eq!(cursor, at(2, 2, 6));
    cursor.move_right(&buffer);
    assert_eq!(cursor, at(2, 2, 6));
}

#[test]
fn cursor_coordinates_are_recomputed_from_each_other() {
    let buffer = Buffer::from_string("hello\nhi\n\nworld".to_string());
    let mut cursor = at(1, 1, 0);
    cursor.calculate_index(&buffer);
    assert_eq!(cursor, at(1, 1, 7));
    let mut cursor = at(1, 9, 0);
    cursor.calculate_index(&buffer);
    assert_eq!(cursor, at(1, 9, 8));
    let mut cursor = at(3, 0, 12);
    cursor.calculate_column(&buffer);
    assert_eq!(cursor, at(3, 2, 12));
    assert_eq!(cursor.get_display_xy(&buffer), (2, 3));
    for (offset, line, column) in [(0, 0, 0), (5, 0, 5), (6, 1, 0), (8, 1, 2), (9, 2, 0),
                                   (10, 3, 0), (15, 3, 5), (99, 3, 89)] {
        let mut cursor = at(7, 7, offset);
        cursor.calculate_pos(&buffer);
        assert_eq!(cursor, at(line, column, offset));
    }
    let one_line = Buffer::from_string("abc".to_string());
    let mut cursor = at(7, 7, 2);
    cursor.calculate_pos(&one_line);
    assert_eq!(cursor, at(0, 2, 2));
}

#[test]
fn cursor_follows_operations() {
    let mut buffer = Buffer::from_string("ab\ncd".to_string());
    let mut cursor = at(1, 1, 4);
    buffer.insert(0, "x\ny").unwrap();
    cursor.op_adjust_cursor(&buffer, &Operation::Insert(0, "x\ny".to_string()));
    assert_eq!(cursor, at(2, 1, 7));
    buffer.insert_char(7, 'é').unwrap();
    cursor.op_adjust_cursor(&buffer, &Operation::InsertChar(7, 'é'));
    assert_eq!(cursor, at(2, 3, 9));
    buffer.insert_char(10, '!').unwrap();
    cursor.op_adjust_cursor(&buffer, &Operation::InsertChar(10, '!'));
    assert_eq!(cursor, at(2, 3, 9));
    buffer.remove_char(7).unwrap();
    cursor.op_adjust_cursor(&buffer, &Operation::RemoveChar(7, 'é'));
    assert_eq!(cursor, at(2, 1, 7));
    buffer.remove(4, 7).unwrap();
    cursor.op_adjust_cursor(&buffer, &Operation::Remove(4, 7, "b\ncd".to_string()));
    assert_eq!(buffer.buffer().as_str(), "x\nya!");
    assert_eq!(cursor, at(1, 2, 4));
    buffer.remove_char(1).unwrap();
    cursor.op_adjust_cursor(&buffer, &Operation::RemoveChar(1, '\n'));
    assert_eq!(cursor, at(0, 3, 3));
}

#[test]
fn cursor_inside_a_removed_character_falls_to_its_start() {
    let mut buffer = Buffer::from_string("aéb".to_string());
    let mut cursor = at(0, 2, 2);
    buffer.remove_char(1).unwrap();
    cursor.op_adjust_cursor(&buffer, &Operation::RemoveChar(1, 'é'));
    assert_eq!(cursor, at(0, 1, 1));
}

#[test]
fn view_events_compare() {
    assert!(Event::Char('a') == Event::Char('a'));
    assert!(Event::Char('a') != Event::Backspace);
}
