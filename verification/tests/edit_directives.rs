use parse_runner::edits::EditOperation;
use parse_runner::edits::apply_edit;
use parse_runner::edits::apply_edits;
use parse_runner::edits::parse_edit_directive;

fn parse(directive: &str) -> Result<EditOperation, Vec<u8>> {
    match parse_edit_directive(&directive.as_bytes().to_vec()) {
        Ok(op) => Ok(op),
        Err(e) => Err(e.directive),
    }
}

#[test]
fn directive_with_all_fields_parses() {
    let op = parse("2,4 3 hello").unwrap();
    assert_eq!(op.start_row, 2);
    assert_eq!(op.start_col, 4);
    assert_eq!(op.delete_count, 3);
    assert_eq!(op.inserted_text, b"hello".to_vec());
}

#[test]
fn non_numeric_row_fails_and_names_the_directive() {
    let err = parse("x,4 3 hi").unwrap_err();
    assert_eq!(err, b"x,4 3 hi".to_vec());
}

#[test]
fn inserted_text_is_verbatim_with_embedded_whitespace() {
    let op = parse("0,0 0 hello  world !").unwrap();
    assert_eq!(op.inserted_text, b"hello  world !".to_vec());
}

#[test]
fn missing_text_means_empty_insertion() {
    let op = parse("1,2 7").unwrap();
    assert_eq!(op.start_row, 1);
    assert_eq!(op.start_col, 2);
    assert_eq!(op.delete_count, 7);
    assert_eq!(op.inserted_text, Vec::<u8>::new());
}

#[test]
fn malformed_shapes_fail() {
    assert!(parse("").is_err());
    assert!(parse("24 3 x").is_err());
    assert!(parse("2,4").is_err());
    assert!(parse("2,a 3 x").is_err());
    assert!(parse("2,4 y x").is_err());
    assert!(parse(",4 3 x").is_err());
    assert!(parse("2, 3 x").is_err());
    assert!(parse("2,4 99999999999999999999999 x").is_err());
}

#[test]
fn edit_replaces_bytes_at_row_and_column() {
    let buffer = b"hello\nworld".to_vec();
    let op = parse("1,0 5 verus").unwrap();
    assert_eq!(apply_edit(&buffer, &op), b"hello\nverus".to_vec());

    let op = parse("0,2 0 XX").unwrap();
    assert_eq!(apply_edit(&buffer, &op), b"heXXllo\nworld".to_vec());
}

#[test]
fn edit_beyond_the_buffer_clamps_to_its_end() {
    let buffer = b"ab".to_vec();
    let op = parse("9,9 9 !").unwrap();
    assert_eq!(apply_edit(&buffer, &op), b"ab!".to_vec());
}

#[test]
fn edits_apply_strictly_in_the_order_given() {
    let buffer = b"abc".to_vec();
    let first = parse("0,0 1 X").unwrap();
    let second = parse("0,1 1 Y").unwrap();
    // After the first edit the buffer is "Xbc"; the second deletes "b".
    assert_eq!(apply_edits(buffer, &vec![first, second]), b"XYc".to_vec());
}
