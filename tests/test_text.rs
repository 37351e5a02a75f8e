use toolkit::fs::line_of;
use toolkit::option::flatten;
use toolkit::text::uppercase_first_char;

#[test]
fn test_uppercase_first_char() {
    assert_eq!("Abc", uppercase_first_char("abc"));
}

#[test]
fn lowercase_first_char() {
    assert_eq!("aBC", toolkit::text::lowercase_first_char("ABC"));
}

#[test]
fn first_char_case_on_empty_text() {
    assert_eq!("", uppercase_first_char(""));
    assert_eq!("", toolkit::text::lowercase_first_char(""));
}

#[test]
fn first_char_case_on_one_character() {
    assert_eq!("Q", uppercase_first_char("q"));
    assert_eq!("q", toolkit::text::lowercase_first_char("Q"));
    assert_eq!("SS", uppercase_first_char("ß"));
    assert_eq!("É", uppercase_first_char("é"));
    assert_eq!("1", uppercase_first_char("1"));
}

#[test]
fn first_char_case_keeps_the_rest() {
    assert_eq!("ÉtÉ", uppercase_first_char("étÉ"));
    assert_eq!("xYZ", toolkit::text::lowercase_first_char("XYZ"));
    assert_eq!("Abc", uppercase_first_char("Abc"));
}

#[test]
fn flatten_layers() {
    assert_eq!(flatten(Some(Some(3))), Some(3));
    assert_eq!(flatten::<i32>(Some(None)), None);
    assert_eq!(flatten::<i32>(None), None);
}

#[test]
fn appended_line_text() {
    assert_eq!(line_of(b"A"), "A\n");
    assert_eq!(line_of(b""), "\n");
    assert_eq!(line_of(&[0x66, 0xff, 0x6f]), "f\u{FFFD}o\n");
}
