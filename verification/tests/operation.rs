use ted::buffer_operator::BufferOperator;
use ted::command::Command;
use ted::error::Error;
use ted::operation::{OpCoords, Operation};
use ted::operation::Operation::{Insert, InsertChar, Remove, RemoveChar};

fn text(buf_op: &BufferOperator) -> String {
    buf_op.buffer().buffer().clone()
}

#[test]
fn do_before_removed_same() {
    let before = Remove(0, 10, "asdfghjklz".to_string());
    let mut after = Remove(0, 10, "asdfghjklz".to_string());

    assert!(before.do_before(&mut after) == false);
}

#[test]
fn do_before_removed_touch_left() {
    let before = Remove(5, 10, "asdfghjklz".to_string());
    let mut after = Remove(1, 7, "hellos".to_string());

    assert!(before.do_before(&mut after) == false);
}

#[test]
fn do_before_removed_touch_right() {
    let before = Remove(0, 10, "asdfghjklz".to_string());
    let mut after = Remove(5, 15, "hellosderphello".to_string());

    assert!(before.do_before(&mut after) == false);
}

#[test]
fn do_before_removed_contained() {
    let before = Remove(0, 10, "asdfghjklz".to_string());
    let mut after = Remove(1, 9, "hellosir".to_string());

    assert!(before.do_before(&mut after) == false);
}

#[test]
fn insert_char_do_before_insert_char() {
    let before = InsertChar(0, 'a');
    let mut after = InsertChar(1, 'a');

    assert!(before.do_before(&mut after) == true);
    assert!(after == InsertChar(2, 'a'));
}

#[test]
fn insert_char_do_before_insert_char_no_effect() {
    let before = InsertChar(4, 'a');
    let mut after = InsertChar(2, 'a');

    assert!(before.do_before(&mut after) == true);
    assert!(after == InsertChar(2, 'a'));
}

#[test]
fn do_before_insert_shifts_by_its_length() {
    let before = Insert(3, "abcd".to_string());
    let mut after = Remove(5, 6, "xy".to_string());
    assert!(before.do_before(&mut after));
    assert_eq!(after, Remove(9, 10, "xy".to_string()));

    let mut same_offset = InsertChar(3, 'q');
    assert!(before.do_before(&mut same_offset));
    assert_eq!(same_offset, InsertChar(3, 'q'));
}

#[test]
fn do_before_remove_clamps_inserts_inside_its_range() {
    let before = Remove(2, 5, "abcd".to_string());
    let mut inside = Insert(4, "x".to_string());
    assert!(before.do_before(&mut inside));
    assert_eq!(inside, Insert(2, "x".to_string()));

    let mut at_end = InsertChar(5, 'x');
    assert!(before.do_before(&mut at_end));
    assert_eq!(at_end, InsertChar(2, 'x'));

    let mut behind = InsertChar(6, 'x');
    assert!(before.do_before(&mut behind));
    assert_eq!(behind, InsertChar(2, 'x'));

    let mut ahead = InsertChar(1, 'x');
    assert!(before.do_before(&mut ahead));
    assert_eq!(ahead, InsertChar(1, 'x'));
}

#[test]
fn do_before_remove_cancels_removals_of_the_same_text() {
    let before = RemoveChar(3, 'a');
    let mut same = RemoveChar(3, 'a');
    assert!(!before.do_before(&mut same));
    assert_eq!(same, RemoveChar(3, 'a'));

    let mut behind = RemoveChar(4, 'b');
    assert!(before.do_before(&mut behind));
    assert_eq!(behind, RemoveChar(3, 'b'));

    let mut range = Remove(1, 3, "xya".to_string());
    assert!(!before.do_before(&mut range));
}

#[test]
fn do_before_counts_the_bytes_of_a_character() {
    let before = InsertChar(0, 'é');
    let mut after = InsertChar(1, 'x');
    assert!(before.do_before(&mut after));
    assert_eq!(after, InsertChar(3, 'x'));

    let removal = RemoveChar(0, 'é');
    let mut inside = InsertChar(1, 'x');
    assert!(removal.do_before(&mut inside));
    assert_eq!(inside, InsertChar(0, 'x'));
    let mut behind = InsertChar(2, 'x');
    assert!(removal.do_before(&mut behind));
    assert_eq!(behind, InsertChar(0, 'x'));
}

#[test]
fn try_do_before_drops_what_would_leave_the_offset_range() {
    let before = Insert(0, "ab".to_string());
    let mut far = InsertChar(u64::MAX, 'x');
    assert!(!before.can_do_before(&far));
    assert!(!before.try_do_before(&mut far));
    assert_eq!(far, InsertChar(u64::MAX, 'x'));

    let mut near = InsertChar(1, 'x');
    assert!(before.can_do_before(&near));
    assert!(before.try_do_before(&mut near));
    assert_eq!(near, InsertChar(3, 'x'));
}

#[test]
fn inverse_of_each_variant() {
    assert_eq!(InsertChar(3, 'a').inverse(), RemoveChar(3, 'a'));
    assert_eq!(RemoveChar(3, 'a').inverse(), InsertChar(3, 'a'));
    assert_eq!(Insert(3, "héllo".to_string()).inverse(), Remove(3, 8, "héllo".to_string()));
    assert_eq!(Insert(0, "a".to_string()).inverse(), Remove(0, 0, "a".to_string()));
    assert_eq!(Remove(3, 7, "hello".to_string()).inverse(), Insert(3, "hello".to_string()));
}

#[test]
fn invertible_and_well_formed() {
    assert!(!Insert(0, String::new()).is_invertible());
    assert!(Insert(1, String::new()).is_invertible());
    assert!(!Insert(u64::MAX, "ab".to_string()).is_invertible());
    assert!(Insert(u64::MAX, "a".to_string()).is_invertible());
    assert!(Remove(2, 4, "abc".to_string()).is_wf());
    assert!(!Remove(2, 4, "ab".to_string()).is_wf());
    assert!(!Remove(4, 2, "abc".to_string()).is_wf());
    assert!(InsertChar(9, 'x').is_wf());
    assert_eq!(Insert(4, "héllo".to_string()).width(), 6);
    assert_eq!(RemoveChar(4, 'é').width(), 2);
    assert_eq!(Remove(4, 5, "ab".to_string()).start_offset(), 4);
}

#[test]
fn coords_are_read_and_written() {
    let mut op = Remove(1, 3, "bcd".to_string());
    assert!(op.get_coords() == OpCoords::Remove(1, 3));
    op.set_coords(&OpCoords::Remove(4, 6));
    assert_eq!(op, Remove(4, 6, "bcd".to_string()));

    let mut op = InsertChar(1, 'x');
    assert!(op.get_coords() == OpCoords::InsertChar(1));
    op.set_coords(&OpCoords::InsertChar(7));
    assert_eq!(op, InsertChar(7, 'x'));

    let mut op = Insert(1, "x".to_string());
    assert!(op.get_coords() == OpCoords::Insert(1));
    op.set_coords(&OpCoords::Insert(2));
    assert_eq!(op, Insert(2, "x".to_string()));

    let mut op = RemoveChar(1, 'x');
    assert!(op.get_coords() == OpCoords::RemoveChar(1));
    op.set_coords(&OpCoords::RemoveChar(0));
    assert_eq!(op, RemoveChar(0, 'x'));
}

#[test]
fn operation_clone_is_equal() {
    let op = Remove(1, 3, "bcd".to_string());
    assert_eq!(op.clone(), op);
}

#[test]
fn buffer_operator_executes_operations() {
    let mut buf_op = BufferOperator::from_string("hello".to_string());
    buf_op.set_dirty(false);
    assert_eq!(buf_op.do_operation(&Insert(5, ", world".to_string())), Ok(()));
    assert_eq!(text(&buf_op), "hello, world");
    assert!(buf_op.dirty());
    assert_eq!(buf_op.do_operation(&InsertChar(0, '>')), Ok(()));
    assert_eq!(buf_op.do_operation(&RemoveChar(1, 'h')), Ok(()));
    assert_eq!(buf_op.do_operation(&Remove(1, 4, "ello".to_string())), Ok(()));
    assert_eq!(text(&buf_op), ">, world");
    assert_eq!(buf_op.buffer_bytes(), b">, world");
    assert_eq!(buf_op.len(), 8);
}

#[test]
fn buffer_operator_refuses_what_is_not_legal() {
    let mut buf_op = BufferOperator::from_string("héllo".to_string());
    assert_eq!(buf_op.do_operation(&Insert(7, "x".to_string())), Err(Error::OutOfRange));
    assert_eq!(buf_op.do_operation(&InsertChar(2, 'x')), Err(Error::OutOfRange));
    assert_eq!(buf_op.do_operation(&RemoveChar(0, 'x')), Err(Error::OutOfRange));
    assert_eq!(buf_op.do_operation(&RemoveChar(6, 'o')), Err(Error::OutOfRange));
    assert_eq!(buf_op.do_operation(&Remove(0, 1, "hx".to_string())), Err(Error::OutOfRange));
    assert_eq!(buf_op.do_operation(&Remove(3, 2, "".to_string())), Err(Error::OutOfRange));
    assert_eq!(buf_op.do_operation(&Remove(0, 2, "hé".to_string())), Ok(()));
    assert_eq!(text(&buf_op), "llo");
}

#[test]
fn buffer_operator_returns_the_operation_it_made() {
    let mut buf_op = BufferOperator::from_string("abc\ndef".to_string());
    assert_eq!(buf_op.insert_char(3, '!'), Ok(InsertChar(3, '!')));
    assert_eq!(buf_op.insert(0, "> ".to_string()), Ok(Insert(0, "> ".to_string())));
    assert_eq!(buf_op.remove_char(6), Ok(RemoveChar(6, '\n')));
    assert_eq!(buf_op.remove(0, 1), Ok(Remove(0, 1, "> ".to_string())));
    assert_eq!(text(&buf_op), "abc!def");
    assert_eq!(buf_op.remove(3, 9), Err(Error::OutOfRange));
    assert_eq!(buf_op.remove_char(7), Err(Error::OutOfRange));
    assert_eq!(buf_op.insert_char(8, 'x'), Err(Error::OutOfRange));
    assert_eq!(buf_op.insert(8, "x".to_string()), Err(Error::OutOfRange));
}

#[test]
fn inverse_undoes_every_variant() {
    let start = "hello\nwörld";
    let ops = vec![
        InsertChar(5, '!'),
        InsertChar(0, 'é'),
        Insert(7, "a\nb".to_string()),
        RemoveChar(5, '\n'),
        RemoveChar(7, 'ö'),
        Remove(3, 8, "lo\nwö".to_string()),
        Remove(0, 11, "hello\nwörld".to_string()),
    ];
    for op in ops {
        let mut buf_op = BufferOperator::from_string(start.to_string());
        assert_eq!(buf_op.do_operation(&op), Ok(()));
        assert!(text(&buf_op) != start);
        assert_eq!(buf_op.do_operation(&op.inverse()), Ok(()));
        assert_eq!(text(&buf_op), start);
    }
}

#[test]
fn inverse_of_returned_operation_restores_the_text() {
    let mut buf_op = BufferOperator::from_string("hello, world".to_string());
    let op = buf_op.remove(5, 6).unwrap();
    assert_eq!(text(&buf_op), "helloworld");
    assert_eq!(buf_op.do_operation(&op.inverse()), Ok(()));
    assert_eq!(text(&buf_op), "hello, world");
    let op = buf_op.remove_char(0).unwrap();
    assert_eq!(buf_op.do_operation(&op.inverse()), Ok(()));
    assert_eq!(text(&buf_op), "hello, world");
}

fn both_orders(start: &str, a: Operation, b: Operation) -> (String, String) {
    let mut a_then_b = BufferOperator::from_string(start.to_string());
    let mut b_then_a = BufferOperator::from_string(start.to_string());
    let mut b_after_a = b.clone();
    let mut a_after_b = a.clone();
    assert!(a.do_before(&mut b_after_a));
    assert!(b.do_before(&mut a_after_b));
    assert_eq!(a_then_b.do_operation(&a), Ok(()));
    assert_eq!(a_then_b.do_operation(&b_after_a), Ok(()));
    assert_eq!(b_then_a.do_operation(&b), Ok(()));
    assert_eq!(b_then_a.do_operation(&a_after_b), Ok(()));
    (text(&a_then_b), text(&b_then_a))
}

#[test]
fn transform_converges_for_operations_apart() {
    let (x, y) = both_orders("abcdef", Insert(1, "XY".to_string()), InsertChar(4, 'z'));
    assert_eq!(x, "aXYbcdzef");
    assert_eq!(y, "aXYbcdzef");

    let (x, y) = both_orders("abcdef", Insert(1, "XY".to_string()), Remove(3, 4, "de".to_string()));
    assert_eq!(x, "aXYbcf");
    assert_eq!(y, "aXYbcf");

    let (x, y) = both_orders("abcdef", InsertChar(5, 'z'), Remove(1, 4, "bcde".to_string()));
    assert_eq!(x, "azf");
    assert_eq!(y, "azf");

    let (x, y) = both_orders("abcdef", RemoveChar(0, 'a'), Remove(3, 4, "de".to_string()));
    assert_eq!(x, "bcf");
    assert_eq!(y, "bcf");

    let (x, y) = both_orders("abcdef", Remove(0, 2, "abc".to_string()), Remove(3, 5, "def".to_string()));
    assert_eq!(x, "");
    assert_eq!(y, "");
}

#[test]
fn inserts_at_the_same_offset_follow_arrival_order() {
    let a = InsertChar(2, 'x');
    let b = InsertChar(2, 'y');
    let mut b_after_a = b.clone();
    assert!(a.do_before(&mut b_after_a));
    assert_eq!(b_after_a, InsertChar(2, 'y'));
    let mut buf_op = BufferOperator::from_string("abcd".to_string());
    buf_op.do_operation(&a).unwrap();
    buf_op.do_operation(&b_after_a).unwrap();
    assert_eq!(text(&buf_op), "abyxcd");
}

#[test]
fn command_inverse() {
    let insert = Command::Insert(2, "abc".to_string());
    assert!(insert.clone().inverse() == Command::Remove(2, 4, "abc".to_string()));
    let remove = Command::Remove(2, 4, "abc".to_string());
    assert!(remove.inverse() == insert);
}

#[test]
fn write_file_names_the_file_and_the_text() {
    let buf_op = BufferOperator::from_file("notes.txt".to_string(), "hello".to_string());
    let path = "notes.txt".to_string();
    let text = "hello".to_string();
    assert_eq!(buf_op.write_file(), Ok((&path, &text)));
    assert_eq!(buf_op.file_path, Some("notes.txt".to_string()));
    let buf_op = BufferOperator::from_string("hello".to_string());
    assert_eq!(buf_op.write_file(), Err("Buffer file_path is None".to_string()));
    assert_eq!(BufferOperator::new().file_path, None);
}

#[test]
fn buffer_mut_changes_the_buffer_in_place() {
    let mut buf_op = BufferOperator::from_string("hello".to_string());
    buf_op.buffer_mut().insert(5, "!").unwrap();
    assert_eq!(text(&buf_op), "hello!");
    buf_op.clear();
    assert_eq!(buf_op.len(), 0);
    assert!(buf_op.dirty);
}
