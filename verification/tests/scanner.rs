use algolib::scanner::TokenCursor;

#[test]
fn a_new_cursor_has_no_token() {
    let mut cursor = TokenCursor::new();
    assert_eq!(cursor.next_token(), None);
    assert_eq!(cursor.bytes().len(), 0);
}

#[test]
fn tokens_end_at_spaces() {
    let mut cursor = TokenCursor::new();
    cursor.refill(b"12 abc 7\n".to_vec());
    assert_eq!(cursor.next_token(), Some((0, 2)));
    assert_eq!(cursor.next_token(), Some((3, 6)));
    assert_eq!(cursor.next_token(), Some((7, 9)));
    assert_eq!(cursor.next_token(), None);
    assert_eq!(cursor.next_token(), None);
    assert_eq!(&cursor.bytes()[7..9], b"7\n");
}

#[test]
fn two_spaces_hold_an_empty_token() {
    let mut cursor = TokenCursor::new();
    cursor.refill(b"a  b".to_vec());
    assert_eq!(cursor.next_token(), Some((0, 1)));
    assert_eq!(cursor.next_token(), Some((2, 2)));
    assert_eq!(cursor.next_token(), Some((3, 4)));
    assert_eq!(cursor.next_token(), None);
}

#[test]
fn a_trailing_space_ends_the_line() {
    let mut cursor = TokenCursor::new();
    cursor.refill(b"x ".to_vec());
    assert_eq!(cursor.next_token(), Some((0, 1)));
    assert_eq!(cursor.next_token(), None);
}

#[test]
fn refill_starts_over() {
    let mut cursor = TokenCursor::new();
    cursor.refill(b"1 2".to_vec());
    assert_eq!(cursor.next_token(), Some((0, 1)));
    cursor.refill(b"345".to_vec());
    assert_eq!(cursor.next_token(), Some((0, 3)));
    assert_eq!(cursor.next_token(), None);
    cursor.refill(Vec::new());
    assert_eq!(cursor.next_token(), None);
}
