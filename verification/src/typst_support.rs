use vstd::prelude::*;
use vstd::string::StringSliceAdditionalSpecFns;
use vstd::utf8::{decode_utf8, valid_utf8};

use regex::bytes::Regex;

use crate::text::push_char;

verus! {

/// The pattern of the background rectangle that typst draws first.
pub const BACKGROUND_PATH_PATTERN: &'static str = r"<path[^>]*(?:>.*?<\/path>|\/>)";

/// The pattern of the size attributes of the root `svg` element.
pub const SIZE_ATTRS_PATTERN: &'static str = r#"\s+(?:viewBox|width|height)="[^"]*""#;

/// The bytes of `haystack` with the leftmost match of `pattern` replaced by
/// `replacement`, as `regex::bytes::Regex::replace` computes them.
pub uninterp spec fn regex_replace_first(
    pattern: Seq<char>,
    haystack: Seq<u8>,
    replacement: Seq<u8>,
) -> Seq<u8>;

/// The bytes of `haystack` with every match of `pattern` replaced by
/// `replacement`, as `regex::bytes::Regex::replace_all` computes them.
pub uninterp spec fn regex_replace_every(
    pattern: Seq<char>,
    haystack: Seq<u8>,
    replacement: Seq<u8>,
) -> Seq<u8>;

/// The characters that `String::from_utf8_lossy` makes of `bytes`.
pub uninterp spec fn utf8_lossy(bytes: Seq<u8>) -> Seq<char>;

/// Whether `pattern` is one of the patterns this module compiles, both of
/// which are valid regular expressions.
pub open spec fn known_pattern(pattern: Seq<char>) -> bool {
    pattern == BACKGROUND_PATH_PATTERN@ || pattern == SIZE_ATTRS_PATTERN@
}

/// `regex::bytes::Regex::replace` with a compiled `pattern`: the result is
/// named, nothing more is claimed.
#[verifier::external_body]
fn regex_replace(pattern: &str, haystack: &[u8], replacement: &[u8]) -> (r: Vec<u8>)
    requires
        known_pattern(pattern@),
    ensures
        r@ == regex_replace_first(pattern@, haystack@, replacement@),
{
    Regex::new(pattern).unwrap().replace(haystack, replacement).into_owned()
}

/// `regex::bytes::Regex::replace_all` with a compiled `pattern`: the result
/// is named, nothing more is claimed.
#[verifier::external_body]
fn regex_replace_all(pattern: &str, haystack: &[u8], replacement: &[u8]) -> (r: Vec<u8>)
    requires
        known_pattern(pattern@),
    ensures
        r@ == regex_replace_every(pattern@, haystack@, replacement@),
{
    Regex::new(pattern).unwrap().replace_all(haystack, replacement).into_owned()
}

/// `String::from_utf8_lossy`: the characters of valid UTF-8 are decoded as
/// they are; what it makes of invalid sequences is named only.
#[verifier::external_body]
fn from_utf8_lossy(bytes: &[u8]) -> (r: String)
    ensures
        r@ == utf8_lossy(bytes@),
        valid_utf8(bytes@) ==> r@ == decode_utf8(bytes@),
{
    String::from_utf8_lossy(bytes).into_owned()
}

/// What [`get_typst_element`] makes of an SVG: the background path
/// removed, then the size attributes.
pub open spec fn typst_element_spec(svg: Seq<char>) -> Seq<char> {
    utf8_lossy(
        regex_replace_every(
            SIZE_ATTRS_PATTERN@,
            regex_replace_first(BACKGROUND_PATH_PATTERN@, vstd::utf8::encode_utf8(svg), seq![]),
            seq![],
        ),
    )
}

/// The element of a typst SVG: the first `path` (the page background) and
/// the `viewBox`, `width` and `height` attributes removed.
pub fn get_typst_element(svg: &str) -> (r: String)
    ensures
        r@ == typst_element_spec(svg@),
{
    let empty: Vec<u8> = Vec::new();
    let removed_bg = regex_replace(BACKGROUND_PATH_PATTERN, svg.as_bytes(), empty.as_slice());
    let removed_size = regex_replace_all(SIZE_ATTRS_PATTERN, removed_bg.as_slice(), empty.as_slice());
    from_utf8_lossy(removed_size.as_slice())
}

/// `std::str::from_utf8`: the characters that `bytes` encode, exactly when
/// they are valid UTF-8.
#[verifier::external_body]
fn str_from_utf8(bytes: &[u8]) -> (r: Option<String>)
    ensures
        r is Some <==> valid_utf8(bytes@),
        r matches Some(s) ==> s@ == decode_utf8(bytes@),
{
    match std::str::from_utf8(bytes) {
        Ok(s) => Some(s.to_owned()),
        Err(_) => None,
    }
}

/// The byte order mark.
pub open spec fn bom() -> char {
    '\u{feff}'
}

/// `s` without its leading byte order marks.
pub open spec fn trim_leading_bom(s: Seq<char>) -> Seq<char>
    decreases s.len(),
{
    if s.len() > 0 && s[0] == bom() {
        trim_leading_bom(s.drop_first())
    } else {
        s
    }
}

/// Trimming drops exactly the byte order marks that `s` starts with: what
/// is left is the rest of `s`, and it does not start with one.
pub proof fn lemma_trim_leading_bom(s: Seq<char>)
    ensures
        exists|k: int|
            0 <= k <= s.len() && trim_leading_bom(s) == s.skip(k) && forall|i: int|
                0 <= i < k ==> #[trigger] s[i] == bom(),
        !(trim_leading_bom(s).len() > 0 && trim_leading_bom(s)[0] == bom()),
    decreases s.len(),
{
    if s.len() > 0 && s[0] == bom() {
        lemma_trim_leading_bom(s.drop_first());
        let t = s.drop_first();
        let k = choose|k: int|
            0 <= k <= t.len() && trim_leading_bom(t) == t.skip(k) && forall|i: int|
                0 <= i < k ==> #[trigger] t[i] == bom();
        assert(t.skip(k) =~= s.skip(k + 1));
        assert forall|i: int| 0 <= i < k + 1 implies #[trigger] s[i] == bom() by {
            if i > 0 {
                assert(s[i] == t[i - 1]);
            }
        }
    } else {
        assert(s.skip(0) =~= s);
    }
}

proof fn lemma_trim_step(s: Seq<char>, i: int)
    requires
        0 <= i < s.len(),
        s[i] == bom(),
        trim_leading_bom(s) == trim_leading_bom(s.skip(i)),
    ensures
        trim_leading_bom(s) == trim_leading_bom(s.skip(i + 1)),
{
    assert(s.skip(i).drop_first() =~= s.skip(i + 1));
}

/// The characters of `s` after its leading byte order marks.
fn trim_bom(s: &str) -> (r: String)
    ensures
        r@ == trim_leading_bom(s@),
{
    let n = s.unicode_len();
    let mut i: usize = 0;
    proof {
        assert(s@.skip(0) =~= s@);
    }
    while i < n && s.get_char(i) == '\u{feff}'
        invariant
            n == s@.len(),
            i <= n,
            trim_leading_bom(s@) == trim_leading_bom(s@.skip(i as int)),
        decreases n - i,
    {
        proof {
            lemma_trim_step(s@, i as int);
        }
        i += 1;
    }
    proof {
        let t = s@.skip(i as int);
        assert(!(t.len() > 0 && t[0] == bom()));
    }
    let mut r = String::new();
    let start = i;
    while i < n
        invariant
            n == s@.len(),
            start <= i <= n,
            r@ == s@.subrange(start as int, i as int),
        decreases n - i,
    {
        let c = s.get_char(i);
        push_char(&mut r, c);
        assert(s@.subrange(start as int, i + 1) =~= s@.subrange(start as int, i as int).push(c));
        i += 1;
    }
    assert(s@.subrange(start as int, n as int) =~= s@.skip(start as int));
    r
}

/// Why the text of a file could not be had.
#[derive(Debug, Clone, Copy, PartialEq, Eq)]
pub enum FileError {
    /// The file is not valid UTF-8.
    InvalidUtf8,
}

/// A file that typst reads: its bytes and, once asked for, its text.
pub struct FileEntry {
    bytes: Vec<u8>,
    source: Option<String>,
}

/// The text of a file of these bytes: the UTF-8 they encode without
/// leading byte order marks.
pub open spec fn source_text(bytes: Seq<u8>) -> Seq<char> {
    trim_leading_bom(decode_utf8(bytes))
}

impl FileEntry {
    /// The bytes of the file.
    pub closed spec fn file_bytes(&self) -> Seq<u8> {
        self.bytes@
    }

    /// The text of the file, once it has been asked for.
    pub closed spec fn cached(&self) -> Option<Seq<char>> {
        match self.source {
            Some(s) => Some(s@),
            None => None,
        }
    }

    /// Whether the cached text, if any, is the text of the bytes.
    pub closed spec fn wf(&self) -> bool {
        self.source matches Some(s) ==> valid_utf8(self.bytes@) && s@ == source_text(self.bytes@)
    }

    /// A file of these bytes whose text has not been asked for.
    pub fn new(bytes: Vec<u8>) -> (e: Self)
        ensures
            e.wf(),
            e.file_bytes() == bytes@,
            e.cached() is None,
    {
        FileEntry { bytes, source: None }
    }

    /// The text of the file, decoded once and kept: its UTF-8 without
    /// leading byte order marks; an error when it is not valid UTF-8.
    pub fn source(&mut self) -> (r: Result<String, FileError>)
        requires
            old(self).wf(),
        ensures
            final(self).wf(),
            final(self).file_bytes() == old(self).file_bytes(),
            valid_utf8(old(self).file_bytes()) ==> (r matches Ok(s) && s@ == source_text(
                old(self).file_bytes(),
            ) && final(self).cached() == Some(s@)),
            !valid_utf8(old(self).file_bytes()) ==> r == Err::<String, FileError>(
                FileError::InvalidUtf8,
            ) && final(self).cached() is None,
    {
        match &self.source {
            Some(s) => {
                return Ok(s.clone());
            },
            None => {},
        }
        match str_from_utf8(self.bytes.as_slice()) {
            Some(contents) => {
                let text = trim_bom(contents.as_str());
                self.source = Some(text.clone());
                Ok(text)
            },
            None => Err(FileError::InvalidUtf8),
        }
    }
}

} // verus!
