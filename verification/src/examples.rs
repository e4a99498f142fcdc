use vstd::prelude::*;

use sha1::{Digest, Sha1};
use vstd::string::StringSliceAdditionalSpecFns;

use crate::text::{digit_char, 
    ends_with, has_prefix, has_suffix, push_char, push_str, starts_with, string_of, views,
};

verus! {

/// How an example is published on the website: whether it has a wasm
/// build and whether its page is hidden.
#[derive(Debug, Clone, Default)]
pub struct ExampleMeta {
    pub wasm: bool,
    pub hide: bool,
}

/// An example of the workspace.
#[derive(Debug, Clone)]
pub struct Example {
    pub path: String,
    /// The name of the example, corresponding to the string passed to `--example`
    pub name: String,
    pub code: String,
    pub hash: String,
    pub meta: ExampleMeta,
}

/// The SHA-1 digest of `data`, as the `sha1` crate computes it.
pub uninterp spec fn spec_sha1(data: Seq<u8>) -> Seq<u8>;

/// `sha1::Sha1::digest`: the 20-byte SHA-1 digest of `data`. Its value is
/// named, and only its length is claimed.
#[verifier::external_body]
pub(crate) fn sha1_digest(data: &[u8]) -> (r: Vec<u8>)
    ensures
        r@ == spec_sha1(data@),
        r@.len() == 20,
{
    Sha1::digest(data).to_vec()
}


/// The lower-case hex digit of `n < 16`.
pub open spec fn hex_digit(n: nat) -> char {
    if n < 10 {
        digit_char(n)
    } else {
        ((n - 10 + 97) as u8) as char
    }
}

/// The lower-case hex encoding of `b`: two digits per byte, the high
/// nibble first.
pub open spec fn hex_lower(b: Seq<u8>) -> Seq<char>
    decreases b.len(),
{
    if b.len() == 0 {
        Seq::empty()
    } else {
        hex_lower(b.drop_last()) + seq![
            hex_digit((b.last() / 16) as nat),
            hex_digit((b.last() % 16) as nat),
        ]
    }
}

/// The value of a lower-case hex digit.
pub open spec fn hex_value(c: char) -> int {
    if '0' <= c <= '9' {
        c as int - '0' as int
    } else {
        c as int - 'a' as int + 10
    }
}

/// A digit is `0`-`9` or `a`-`f` and stands for `n < 16`.
proof fn lemma_hex_digit(n: nat)
    requires
        n < 16,
    ensures
        ('0' <= hex_digit(n) <= '9') || ('a' <= hex_digit(n) <= 'f'),
        hex_value(hex_digit(n)) == n,
{
    assert('0' as int == 48 && '9' as int == 57 && 'a' as int == 97 && 'f' as int == 102);
    if n < 10 {
        assert(hex_digit(n) as int == n + 48);
    } else {
        assert(hex_digit(n) as int == n + 87);
    }
}

/// The hex encoding has two lower-case hex digits per byte, the first
/// standing for the high nibble and the second for the low one, so that
/// together they read back the byte.
pub proof fn lemma_hex_lower_reads_back(b: Seq<u8>)
    ensures
        hex_lower(b).len() == 2 * b.len(),
        forall|i: int|
            0 <= i < hex_lower(b).len() ==> ('0' <= #[trigger] hex_lower(b)[i] <= '9') || ('a'
                <= hex_lower(b)[i] <= 'f'),
        forall|i: int|
            0 <= i < b.len() ==> hex_value(#[trigger] hex_lower(b)[2 * i]) * 16 + hex_value(
                hex_lower(b)[2 * i + 1],
            ) == b[i],
    decreases b.len(),
{
    if b.len() > 0 {
        let p = b.drop_last();
        lemma_hex_lower_reads_back(p);
        let x = b.last();
        lemma_hex_digit((x / 16) as nat);
        lemma_hex_digit((x % 16) as nat);
        let h = hex_lower(b);
        let hp = hex_lower(p);
        assert(h =~= hp + seq![hex_digit((x / 16) as nat), hex_digit((x % 16) as nat)]);
        assert forall|i: int| 0 <= i < h.len() implies ('0' <= #[trigger] h[i] <= '9') || ('a'
            <= h[i] <= 'f') by {
            if i < hp.len() {
                assert(h[i] == hp[i]);
            }
        }
        assert forall|i: int| 0 <= i < b.len() implies hex_value(#[trigger] h[2 * i]) * 16
            + hex_value(h[2 * i + 1]) == b[i] by {
            if i < p.len() {
                assert(h[2 * i] == hp[2 * i]);
                assert(h[2 * i + 1] == hp[2 * i + 1]);
                assert(b[i] == p[i]);
            } else {
                assert(h[2 * i] == hex_digit((x / 16) as nat));
                assert(h[2 * i + 1] == hex_digit((x % 16) as nat));
                assert(x == (x / 16) * 16 + x % 16);
            }
        }
    }
}

/// `base16ct::lower::encode_string`: the lower-case hex encoding of `data`,
/// two digits per byte with the high nibble first.
#[verifier::external_body]
pub(crate) fn hex_encode(data: &[u8]) -> (r: String)
    requires
        data@.len() <= usize::MAX / 2,
    ensures
        r@ == hex_lower(data@),
{
    base16ct::lower::encode_string(data)
}

/// The hash that tells whether the code of an example changed: the lower
/// hex SHA-1 digest of its UTF-8 bytes.
pub fn code_hash(code: &str) -> (r: String)
    ensures
        r@ == hex_lower(spec_sha1(code.spec_bytes())),
{
    let digest = sha1_digest(code.as_bytes());
    hex_encode(digest.as_slice())
}

/// The markdown shown for an example's code: the code in a rust block.
pub fn code_block(code: &str) -> (r: String)
    ensures
        r@ == "```rust\n"@ + code@ + "```"@,
{
    let mut r = string_of("```rust\n");
    push_str(&mut r, code);
    push_str(&mut r, "```");
    r
}

/// The example `name` at `path` whose source is `source`, with the
/// metadata that the manifest gives it (none: not published as wasm, not
/// hidden): its code is shown in a rust block and its hash is that of the
/// source.
pub fn example_from_source(name: String, path: String, source: &str, meta: Option<ExampleMeta>) -> (e:
    Example)
    ensures
        e.name == name,
        e.path == path,
        e.code@ == "```rust\n"@ + source@ + "```"@,
        e.hash@ == hex_lower(spec_sha1(source.spec_bytes())),
        e.meta == (match meta {
            Some(m) => m,
            None => ExampleMeta { wasm: false, hide: false },
        }),
{
    let meta = match meta {
        Some(m) => m,
        None => ExampleMeta { wasm: false, hide: false },
    };
    Example { path, name, code: code_block(source), hash: code_hash(source), meta }
}

/// The front matter of an example's page.
pub open spec fn page_header(name: Seq<char>) -> Seq<char> {
    "+++\ntitle = \""@ + name + "\"\ntemplate = \"examples-page.html\"\n+++\n\n"@
}

/// The page of an example: the front matter, the README (when there is
/// one) ending in a blank line, and the example marker.
pub open spec fn example_page_spec(name: Seq<char>, readme: Option<Seq<char>>) -> Seq<char> {
    let body = match readme {
        None => page_header(name),
        Some(r) => {
            let with_readme = page_header(name) + r;
            let ended = if has_suffix(r, "\n"@) {
                with_readme
            } else {
                with_readme + "\n"@
            };
            if has_suffix(ended, "\n\n"@) {
                ended
            } else {
                ended + "\n"@
            }
        },
    };
    body + "!example-"@ + name + "\n"@
}

/// The page is the front matter, then the README padded with the fewest
/// newlines that end it with a line break and leave a blank line before the
/// marker, then the marker `!example-<name>`: nothing is added to a README
/// that ends in a blank line, one newline to one that ends in a single line
/// break, two to one that does not end in a line break, and one newline
/// stands for an empty README.
pub proof fn lemma_example_page_layout(name: Seq<char>, readme: Option<Seq<char>>)
    ensures
        ({
            let p = example_page_spec(name, readme);
            let h = page_header(name);
            let m = "!example-"@ + name + "\n"@;
            &&& readme is None ==> p == h + m
            &&& readme matches Some(r) ==> (r.len() == 0 || r == "\n"@) ==> p == h + "\n"@ + m
            &&& readme matches Some(r) ==> r.len() >= 2 && r[r.len() - 1] == '\n' && r[r.len()
                - 2] == '\n' ==> p == h + r + m
            &&& readme matches Some(r) ==> r.len() >= 2 && r[r.len() - 1] == '\n' && r[r.len()
                - 2] != '\n' ==> p == h + r + "\n"@ + m
            &&& readme matches Some(r) ==> r.len() > 0 && r[r.len() - 1] != '\n' ==> p == h + r
                + "\n\n"@ + m
        }),
{
    reveal_strlit("\n");
    reveal_strlit("\n\n");
    reveal_strlit("\"\ntemplate = \"examples-page.html\"\n+++\n\n");
    let h = page_header(name);
    let tail = "\"\ntemplate = \"examples-page.html\"\n+++\n\n"@;
    assert(h[h.len() - 1] == '\n' && h[h.len() - 2] == '\n') by {
        assert(h =~= ("+++\ntitle = \""@ + name) + tail);
        assert(h[h.len() - 1] == tail[tail.len() - 1]);
        assert(h[h.len() - 2] == tail[tail.len() - 2]);
    }
    if let Some(r) = readme {
        let hr = h + r;
        if r.len() == 0 {
            assert(hr =~= h);
            assert(!has_suffix(r, "\n"@));
            let e = hr + "\n"@;
            assert(e.skip(e.len() - 2) =~= "\n\n"@);
        } else if r == "\n"@ {
            assert(has_suffix(r, "\n"@)) by {
                assert(r.skip(0) =~= r);
            }
            assert(hr.skip(hr.len() - 2) =~= "\n\n"@);
        } else if r.len() >= 2 && r[r.len() - 1] == '\n' {
            assert(has_suffix(r, "\n"@)) by {
                assert(r.skip(r.len() - 1) =~= "\n"@);
            }
            if r[r.len() - 2] == '\n' {
                assert(hr.skip(hr.len() - 2) =~= "\n\n"@);
            } else {
                assert(hr.skip(hr.len() - 2)[0] != '\n');
                assert(!has_suffix(hr, "\n\n"@));
                let e = hr + "\n"@;
                assert(e.skip(e.len() - 2) =~= "\n\n"@);
            }
        } else if r.len() > 0 && r[r.len() - 1] != '\n' {
            assert(r.skip(r.len() - 1)[0] != '\n');
            assert(!has_suffix(r, "\n"@));
            let e = hr + "\n"@;
            assert(e.skip(e.len() - 2)[0] != '\n');
            assert(!has_suffix(e, "\n\n"@));
            assert(e + "\n"@ =~= hr + "\n\n"@);
        }
    }
}

/// The markdown page of the example `name`, with its README when it has one.
pub fn example_page(name: &str, readme: Option<&str>) -> (r: String)
    ensures
        r@ == example_page_spec(name@, match readme {
            Some(s) => Some(s@),
            None => None,
        }),
{
    let mut md = string_of("+++\ntitle = \"");
    push_str(&mut md, name);
    push_str(&mut md, "\"\ntemplate = \"examples-page.html\"\n+++\n\n");
    match readme {
        Some(content) => {
            push_str(&mut md, content);
            if !ends_with(content, "\n") {
                push_str(&mut md, "\n");
            }
            if !ends_with(md.as_str(), "\n\n") {
                push_str(&mut md, "\n");
            }
        },
        None => {},
    }
    push_str(&mut md, "!example-");
    push_str(&mut md, name);
    push_str(&mut md, "\n");
    md
}

/// What a file that an example's render produced is used for.
#[derive(Debug, Clone, Copy, PartialEq, Eq, Structural)]
pub enum OutputFileKind {
    /// A preview image of the example.
    PreviewImage,
    /// An output shown on the example's page.
    Output,
    /// Not published.
    Skipped,
}

/// Whether `ext` is one of `exts`.
pub open spec fn one_of(ext: Seq<char>, exts: Seq<Seq<char>>) -> bool {
    exists|i: int| 0 <= i < exts.len() && exts[i] == ext
}

/// The kind of a produced file: files named `preview…` are preview images
/// when they are png or jpg; other files are outputs when they are mp4,
/// webm, gif, png or jpg; the rest is skipped.
pub open spec fn output_file_kind_spec(file_name: Seq<char>, ext: Option<Seq<char>>) -> OutputFileKind {
    if has_prefix(file_name, "preview"@) {
        match ext {
            Some(e) => if one_of(e, seq!["png"@, "jpg"@]) {
                OutputFileKind::PreviewImage
            } else {
                OutputFileKind::Skipped
            },
            None => OutputFileKind::Skipped,
        }
    } else {
        match ext {
            Some(e) => if one_of(e, seq!["mp4"@, "webm"@, "gif"@, "png"@, "jpg"@]) {
                OutputFileKind::Output
            } else {
                OutputFileKind::Skipped
            },
            None => OutputFileKind::Skipped,
        }
    }
}

/// A file named `preview…` is a preview image exactly when its extension
/// is png or jpg; any other file is an output exactly when its extension is
/// mp4, webm, gif, png or jpg; a file without an extension is skipped, and
/// so is everything that is neither.
pub proof fn lemma_output_file_kinds(file_name: Seq<char>, ext: Option<Seq<char>>)
    ensures
        ext is None ==> output_file_kind_spec(file_name, ext) == OutputFileKind::Skipped,
        ext matches Some(e) ==> has_prefix(file_name, "preview"@) ==> (output_file_kind_spec(
            file_name,
            ext,
        ) == OutputFileKind::PreviewImage) == (e == "png"@ || e == "jpg"@),
        ext matches Some(e) ==> !has_prefix(file_name, "preview"@) ==> (output_file_kind_spec(
            file_name,
            ext,
        ) == OutputFileKind::Output) == (e == "mp4"@ || e == "webm"@ || e == "gif"@ || e
            == "png"@ || e == "jpg"@),
        output_file_kind_spec(file_name, ext) == OutputFileKind::PreviewImage ==> has_prefix(
            file_name,
            "preview"@,
        ),
        output_file_kind_spec(file_name, ext) == OutputFileKind::Output ==> !has_prefix(
            file_name,
            "preview"@,
        ),
{
    if let Some(e) = ext {
        let p = seq!["png"@, "jpg"@];
        let o = seq!["mp4"@, "webm"@, "gif"@, "png"@, "jpg"@];
        if one_of(e, p) {
            let i = choose|i: int| 0 <= i < p.len() && p[i] == e;
        }
        if e == "png"@ {
            assert(p[0] == e);
        }
        if e == "jpg"@ {
            assert(p[1] == e);
        }
        if one_of(e, o) {
            let i = choose|i: int| 0 <= i < o.len() && o[i] == e;
        }
        if e == "mp4"@ {
            assert(o[0] == e);
        }
        if e == "webm"@ {
            assert(o[1] == e);
        }
        if e == "gif"@ {
            assert(o[2] == e);
        }
        if e == "png"@ {
            assert(o[3] == e);
        }
        if e == "jpg"@ {
            assert(o[4] == e);
        }
    }
}

/// Whether `ext` equals the literal `lit`.
fn is_ext(ext: &str, lit: &str) -> (r: bool)
    ensures
        r == (ext@ == lit@),
{
    string_of(ext) == string_of(lit)
}

/// The kind of the produced file `file_name` with extension `ext`.
pub fn output_file_kind(file_name: &str, ext: Option<&str>) -> (k: OutputFileKind)
    ensures
        k == output_file_kind_spec(file_name@, match ext {
            Some(e) => Some(e@),
            None => None,
        }),
        ext is None ==> k == OutputFileKind::Skipped,
        ext matches Some(e) ==> has_prefix(file_name@, "preview"@) ==> (k
            == OutputFileKind::PreviewImage) == (e@ == "png"@ || e@ == "jpg"@),
        ext matches Some(e) ==> !has_prefix(file_name@, "preview"@) ==> (k == OutputFileKind::Output)
            == (e@ == "mp4"@ || e@ == "webm"@ || e@ == "gif"@ || e@ == "png"@ || e@ == "jpg"@),
{
    proof {
        lemma_output_file_kinds(file_name@, match ext {
            Some(e) => Some(e@),
            None => None,
        });
    }
    let preview = starts_with(file_name, "preview");
    match ext {
        None => OutputFileKind::Skipped,
        Some(e) => {
            let png = is_ext(e, "png");
            let jpg = is_ext(e, "jpg");
            if preview {
                proof {
                    let exts = seq!["png"@, "jpg"@];
                    if one_of(e@, exts) {
                        let i = choose|i: int| 0 <= i < exts.len() && exts[i] == e@;
                    }
                    if png {
                        assert(exts[0] == e@);
                    }
                    if jpg {
                        assert(exts[1] == e@);
                    }
                }
                if png || jpg {
                    OutputFileKind::PreviewImage
                } else {
                    OutputFileKind::Skipped
                }
            } else {
                let mp4 = is_ext(e, "mp4");
                let webm = is_ext(e, "webm");
                let gif = is_ext(e, "gif");
                proof {
                    let exts = seq!["mp4"@, "webm"@, "gif"@, "png"@, "jpg"@];
                    if one_of(e@, exts) {
                        let i = choose|i: int| 0 <= i < exts.len() && exts[i] == e@;
                    }
                    if mp4 {
                        assert(exts[0] == e@);
                    }
                    if webm {
                        assert(exts[1] == e@);
                    }
                    if gif {
                        assert(exts[2] == e@);
                    }
                    if png {
                        assert(exts[3] == e@);
                    }
                    if jpg {
                        assert(exts[4] == e@);
                    }
                }
                if mp4 || webm || gif || png || jpg {
                    OutputFileKind::Output
                } else {
                    OutputFileKind::Skipped
                }
            }
        },
    }
}

/// Whether a run of an example can be skipped: when it is lazy and the
/// recorded hash of its data equals the hash of its code.
pub fn can_skip_run(recorded_hash: Option<&str>, hash: &str, lazy: bool) -> (r: bool)
    ensures
        r == (lazy && match recorded_hash {
            Some(h) => h@ == hash@,
            None => false,
        }),
{
    match recorded_hash {
        Some(h) => string_of(h) == string_of(hash) && lazy,
        None => false,
    }
}

/// The site path of a file published for the example `name`.
pub fn published_path(name: &str, file: &str) -> (r: String)
    ensures
        r@ == "/examples/"@ + name@ + "/"@ + file@,
{
    let mut r = string_of("/examples/");
    push_str(&mut r, name);
    push_str(&mut r, "/");
    push_str(&mut r, file);
    r
}

/// The arguments of the `cargo build` that builds the wasm of the example
/// `name`.
pub fn wasm_build_args(name: &str) -> (r: Vec<String>)
    ensures
        views(r@) == seq![
            "build"@,
            "--example"@,
            name@,
            "--features"@,
            "preview"@,
            "--target"@,
            "wasm32-unknown-unknown"@,
            "--release"@,
        ],
{
    let mut r: Vec<String> = Vec::new();
    r.push(string_of("build"));
    r.push(string_of("--example"));
    r.push(string_of(name));
    r.push(string_of("--features"));
    r.push(string_of("preview"));
    r.push(string_of("--target"));
    r.push(string_of("wasm32-unknown-unknown"));
    r.push(string_of("--release"));
    assert(views(r@) =~= seq![
        "build"@,
        "--example"@,
        name@,
        "--features"@,
        "preview"@,
        "--target"@,
        "wasm32-unknown-unknown"@,
        "--release"@,
    ]);
    r
}

/// The arguments of the `wasm-bindgen` run that writes the web package of
/// the example `name` to `out_dir`.
pub fn wasm_bindgen_args(out_dir: &str, name: &str) -> (r: Vec<String>)
    ensures
        views(r@) == seq![
            "--out-dir"@,
            out_dir@,
            "--target"@,
            "web"@,
            "target/wasm32-unknown-unknown/release/examples/"@ + name@ + ".wasm"@,
        ],
{
    let mut r: Vec<String> = Vec::new();
    r.push(string_of("--out-dir"));
    r.push(string_of(out_dir));
    r.push(string_of("--target"));
    r.push(string_of("web"));
    let mut wasm = string_of("target/wasm32-unknown-unknown/release/examples/");
    push_str(&mut wasm, name);
    push_str(&mut wasm, ".wasm");
    r.push(wasm);
    assert(views(r@) =~= seq![
        "--out-dir"@,
        out_dir@,
        "--target"@,
        "web"@,
        "target/wasm32-unknown-unknown/release/examples/"@ + name@ + ".wasm"@,
    ]);
    r
}

/// The command line that renders the example `name`.
pub fn render_example_command(name: &str) -> (r: Vec<String>)
    ensures
        views(r@) == seq!["ranim"@, "render"@, "--example"@, name@],
{
    let mut r: Vec<String> = Vec::new();
    r.push(string_of("ranim"));
    r.push(string_of("render"));
    r.push(string_of("--example"));
    r.push(string_of(name));
    assert(views(r@) =~= seq!["ranim"@, "render"@, "--example"@, name@]);
    r
}

} // verus!
