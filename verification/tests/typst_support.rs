use ranim::typst_support::{get_typst_element, FileEntry, FileError};

#[test]
fn typst_element_drops_background_and_size() {
    let svg = "<svg class=\"typst-doc\" viewBox=\"0 0 11.48 11\" width=\"11.48pt\" height=\"11pt\" xmlns=\"http://www.w3.org/2000/svg\">\n    <path class=\"typst-shape\" fill=\"#ffffff\" fill-rule=\"nonzero\" d=\"M 0 0v 11 h 11.484 v -11 Z \"/>\n    <g>\n        <use x=\"0\" y=\"0\" fill=\"#000000\"/>\n    </g>\n</svg>";
    let expected = "<svg class=\"typst-doc\" xmlns=\"http://www.w3.org/2000/svg\">\n    \n    <g>\n        <use x=\"0\" y=\"0\" fill=\"#000000\"/>\n    </g>\n</svg>";
    assert_eq!(get_typst_element(svg), expected);
}

#[test]
fn typst_element_removes_only_the_first_path() {
    let svg = "<svg width=\"1pt\">\n<path d=\"a\"/>\n<path d=\"b\"></path>\n</svg>";
    assert_eq!(get_typst_element(svg), "<svg>\n\n<path d=\"b\"></path>\n</svg>");
}

#[test]
fn file_text_is_decoded_once_without_bom() {
    let mut e = FileEntry::new("\u{feff}\u{feff}hello é".as_bytes().to_vec());
    assert_eq!(e.source(), Ok("hello é".to_string()));
    assert_eq!(e.source(), Ok("hello é".to_string()));
    let mut plain = FileEntry::new(b"x\xef\xbb\xbf".to_vec());
    assert_eq!(plain.source(), Ok("x\u{feff}".to_string()));
}

#[test]
fn invalid_utf8_is_refused() {
    let mut e = FileEntry::new(vec![0x66, 0xff, 0x66]);
    assert_eq!(e.source(), Err(FileError::InvalidUtf8));
    let mut surrogate = FileEntry::new(vec![0xed, 0xa0, 0x80]);
    assert_eq!(surrogate.source(), Err(FileError::InvalidUtf8));
}
