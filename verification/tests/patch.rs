use pagescan::patch::{decode_patch, strip, PatchError};

#[test]
fn patch_is_read_from_pairs_of_digits() {
    assert_eq!(decode_patch("AABB").unwrap(), vec![0xaa, 0xbb]);
    assert_eq!(decode_patch("00ff7F80").unwrap(), vec![0x00, 0xff, 0x7f, 0x80]);
    assert_eq!(decode_patch("0123456789abcdefABCDEF").unwrap().len(), 11);
    assert_eq!(decode_patch("9a").unwrap(), vec![0x9a]);
    assert_eq!(decode_patch("a9").unwrap(), vec![0xa9]);
}

#[test]
fn patch_may_hold_spaces_and_marks() {
    assert_eq!(decode_patch("AA BB").unwrap(), vec![0xaa, 0xbb]);
    assert_eq!(decode_patch("\\xAA\\xBB").unwrap(), vec![0xaa, 0xbb]);
    assert_eq!(decode_patch(" \\x90 \\x90 c3 ").unwrap(), vec![0x90, 0x90, 0xc3]);
    assert_eq!(decode_patch("A A B B").unwrap(), vec![0xaa, 0xbb]);
}

#[test]
fn empty_patch_has_no_bytes() {
    assert_eq!(decode_patch("").unwrap(), Vec::<u8>::new());
    assert_eq!(decode_patch("   ").unwrap(), Vec::<u8>::new());
    assert_eq!(decode_patch("\\x").unwrap(), Vec::<u8>::new());
}

#[test]
fn patch_that_is_no_hex_is_refused() {
    assert!(matches!(
        decode_patch("AAB"),
        Err(PatchError::Malformed(hex::FromHexError::OddLength))
    ));
    assert!(matches!(
        decode_patch("AAG0"),
        Err(PatchError::Malformed(hex::FromHexError::InvalidHexCharacter { c: 'G', index: 2 }))
    ));
    assert!(matches!(decode_patch("??"), Err(PatchError::Malformed(_))));
    assert!(matches!(decode_patch("0xAA"), Err(PatchError::Malformed(_))));
    assert!(matches!(decode_patch("AA\\BB"), Err(PatchError::Malformed(_))));
    assert!(matches!(decode_patch("\u{e9}\u{e9}"), Err(PatchError::Malformed(_))));
}

#[test]
fn strip_drops_spaces_and_marks_only() {
    assert_eq!(strip(b"\\xAA \\xBB"), b"AABB".to_vec());
    assert_eq!(strip(b"\\\\x41"), b"\\41".to_vec());
    assert_eq!(strip(b"x\\"), b"x\\".to_vec());
    assert_eq!(strip(b"A\tB"), b"A\tB".to_vec());
    assert_eq!(strip(b""), Vec::<u8>::new());
}
