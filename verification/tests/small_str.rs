use cobra_lang::{Either, SmalLCStr, SMALL_STR_SIZE};

#[test]
fn small_string_is_padded_with_nul() {
    let s = SmalLCStr::new(b"then").expect("short and without NUL");
    let mut want = [0u8; SMALL_STR_SIZE];
    want[..4].copy_from_slice(b"then");
    assert_eq!(s.as_ptr(), &want);
}

#[test]
fn small_string_needs_room_for_the_terminator() {
    assert_eq!(SMALL_STR_SIZE, 16);
    assert!(SmalLCStr::new(b"123456789012345").is_some());
    assert!(SmalLCStr::new(b"1234567890123456").is_none());
    assert!(SmalLCStr::new(b"12345678901234567").is_none());
    let empty = SmalLCStr::new(b"").expect("empty fits");
    assert_eq!(empty.as_ptr(), &[0u8; SMALL_STR_SIZE]);
}

#[test]
fn small_string_holds_no_nul() {
    assert!(SmalLCStr::new(b"a\0b").is_none());
    assert!(SmalLCStr::new(b"\0").is_none());
    assert!(SmalLCStr::new(b"ab\0").is_none());
}

#[test]
fn small_strings_compare_by_content() {
    assert_eq!(SmalLCStr::new(b"abc"), SmalLCStr::new(b"abc"));
    assert_ne!(SmalLCStr::new(b"abc"), SmalLCStr::new(b"abd"));
}

#[test]
fn either_holds_one_of_two() {
    let left: Either<u8, &str> = Either::Left(1);
    let right: Either<u8, &str> = Either::Right("r");
    assert!(matches!(left, Either::Left(1)));
    assert!(matches!(right, Either::Right("r")));
}

#[test]
fn small_string_from_text() {
    assert_eq!(SmalLCStr::try_from("entry"), SmalLCStr::new(b"entry").ok_or(()));
    assert!(SmalLCStr::try_from("entry").is_ok());
    assert_eq!(SmalLCStr::try_from("a\0b"), Err(()));
    assert_eq!(SmalLCStr::try_from("0123456789abcdef"), Err(()));
    // The limit counts bytes, not characters.
    assert!(SmalLCStr::try_from("ééééééé").is_ok());
    assert_eq!(SmalLCStr::try_from("éééééééé"), Err(()));
}
