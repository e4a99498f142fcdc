use vstd::prelude::*;

use crate::text::{views, decimal, join, join_strings, push_char, push_str, string_of, u64_decimal};

verus! {

/// The video formats that a scene can be written to.
#[derive(Debug, Clone, Copy, PartialEq, Eq, Structural)]
pub enum OutputFormat {
    Mp4,
    Webm,
    Mov,
    Gif,
}

/// The ffmpeg video codec, pixel format and file extension of a format.
pub open spec fn encoding_params_spec(format: OutputFormat) -> (Seq<char>, Seq<char>, Seq<char>) {
    match format {
        OutputFormat::Mp4 => ("libx264"@, "yuv420p"@, "mp4"@),
        OutputFormat::Webm => ("libvpx-vp9"@, "yuva420p"@, "webm"@),
        OutputFormat::Mov => ("prores_ks"@, "yuva444p10le"@, "mov"@),
        OutputFormat::Gif => ("gif"@, "rgb8"@, "gif"@),
    }
}

/// The extra ffmpeg codec arguments of a format.
pub open spec fn extra_args_spec(format: OutputFormat) -> Seq<Seq<char>> {
    match format {
        OutputFormat::Mov => seq!["-profile:v"@, "4444"@],
        _ => Seq::empty(),
    }
}

/// Only mov has extra codec arguments, the ProRes profile `-profile:v 4444`;
/// mp4, webm and gif have none.
pub proof fn lemma_extra_args_only_mov(format: OutputFormat)
    ensures
        format == OutputFormat::Mov ==> extra_args_spec(format) == seq!["-profile:v"@, "4444"@],
        format != OutputFormat::Mov ==> extra_args_spec(format).len() == 0,
{
}

/// Each format's ffmpeg codec, pixel format and file extension: mp4 is
/// libx264 in yuv420p, webm is libvpx-vp9 in yuva420p, mov is prores_ks in
/// yuva444p10le and gif is gif in rgb8; the extension is the format's name.
pub proof fn lemma_encoding_params(format: OutputFormat)
    ensures
        format == OutputFormat::Mp4 ==> encoding_params_spec(format) == ("libx264"@, "yuv420p"@, "mp4"@),
        format == OutputFormat::Webm ==> encoding_params_spec(format) == (
            "libvpx-vp9"@,
            "yuva420p"@,
            "webm"@,
        ),
        format == OutputFormat::Mov ==> encoding_params_spec(format) == (
            "prores_ks"@,
            "yuva444p10le"@,
            "mov"@,
        ),
        format == OutputFormat::Gif ==> encoding_params_spec(format) == ("gif"@, "rgb8"@, "gif"@),
        has_alpha_spec(format) == (format == OutputFormat::Webm || format == OutputFormat::Mov),
{
}

/// Whether a format has an alpha channel: webm and mov do.
pub open spec fn has_alpha_spec(format: OutputFormat) -> bool {
    format == OutputFormat::Webm || format == OutputFormat::Mov
}

impl OutputFormat {
    /// Returns `(video_codec, pixel_format, file_extension)`.
    pub fn encoding_params(&self) -> (r: (&'static str, &'static str, &'static str))
        ensures
            (r.0@, r.1@, r.2@) == encoding_params_spec(*self),
            *self == OutputFormat::Mp4 ==> (r.0@, r.1@, r.2@) == ("libx264"@, "yuv420p"@, "mp4"@),
            *self == OutputFormat::Webm ==> (r.0@, r.1@, r.2@) == (
                "libvpx-vp9"@,
                "yuva420p"@,
                "webm"@,
            ),
            *self == OutputFormat::Mov ==> (r.0@, r.1@, r.2@) == (
                "prores_ks"@,
                "yuva444p10le"@,
                "mov"@,
            ),
            *self == OutputFormat::Gif ==> (r.0@, r.1@, r.2@) == ("gif"@, "rgb8"@, "gif"@),
    {
        proof {
            lemma_encoding_params(*self);
        }
        match self {
            OutputFormat::Mp4 => ("libx264", "yuv420p", "mp4"),
            OutputFormat::Webm => ("libvpx-vp9", "yuva420p", "webm"),
            OutputFormat::Mov => ("prores_ks", "yuva444p10le", "mov"),
            OutputFormat::Gif => ("gif", "rgb8", "gif"),
        }
    }

    /// Returns extra codec arguments for ffmpeg.
    pub fn extra_args(&self) -> (r: Vec<String>)
        ensures
            views(r@) == extra_args_spec(*self),
            *self == OutputFormat::Mov ==> views(r@) == seq!["-profile:v"@, "4444"@],
            *self != OutputFormat::Mov ==> r@.len() == 0,
    {
        proof {
            lemma_extra_args_only_mov(*self);
        }
        let mut r: Vec<String> = Vec::new();
        match self {
            OutputFormat::Mov => {
                r.push(string_of("-profile:v"));
                r.push(string_of("4444"));
            },
            _ => {},
        }
        assert(views(r@) =~= extra_args_spec(*self));
        r
    }

    /// Whether this format has an alpha channel.
    pub fn has_alpha(&self) -> (r: bool)
        ensures
            r == has_alpha_spec(*self),
    {
        match self {
            OutputFormat::Webm | OutputFormat::Mov => true,
            _ => false,
        }
    }

    /// Whether the `eq` video filter is compatible with this format: only
    /// formats without alpha are.
    pub fn supports_eq_filter(&self) -> (r: bool)
        ensures
            r == !has_alpha_spec(*self),
    {
        !self.has_alpha()
    }
}

/// The path `path` with its extension replaced by (or set to) `ext`, as
/// `std::path::Path::with_extension` computes it.
pub uninterp spec fn spec_with_extension(path: Seq<char>, ext: Seq<char>) -> Seq<char>;

/// The file stem of `path`, as `std::path::Path::file_stem` computes it.
pub uninterp spec fn spec_file_stem(path: Seq<char>) -> Option<Seq<char>>;

/// The path `path` with its file name replaced by `name`, as
/// `std::path::Path::with_file_name` computes it.
pub uninterp spec fn spec_with_file_name(path: Seq<char>, name: Seq<char>) -> Seq<char>;

/// Whether `ext` holds no path separator (`/` or `\\`).
pub open spec fn no_separator(ext: Seq<char>) -> bool {
    !ext.contains('/') && !ext.contains('\\')
}

/// `std::path::Path::with_extension`, on a path held as a string: its
/// result is named, nothing more is claimed. It panics on an extension that
/// holds a path separator, which the caller keeps out.
#[verifier::external_body]
fn path_with_extension(path: &str, ext: &str) -> (r: String)
    requires
        no_separator(ext@),
    ensures
        r@ == spec_with_extension(path@, ext@),
{
    std::path::Path::new(path).with_extension(ext).to_string_lossy().into_owned()
}

/// `std::path::Path::file_stem`, on a path held as a string: its result is
/// named, nothing more is claimed.
#[verifier::external_body]
fn path_file_stem(path: &str) -> (r: Option<String>)
    ensures
        r matches Some(s) ==> spec_file_stem(path@) == Some(s@),
        r is None ==> spec_file_stem(path@) is None,
{
    std::path::Path::new(path).file_stem().map(|s| s.to_string_lossy().into_owned())
}

/// `std::path::Path::with_file_name`, on a path held as a string: its
/// result is named, nothing more is claimed.
#[verifier::external_body]
fn path_with_file_name(path: &str, name: &str) -> (r: String)
    ensures
        r@ == spec_with_file_name(path@, name@),
{
    std::path::Path::new(path).with_file_name(name).to_string_lossy().into_owned()
}

/// What [`FileWriterBuilder::output_gif`] makes of `old`: the file named
/// after its stem with the `gif` extension, 30 fps, the gif codec in rgb8,
/// and the rest as it was.
pub open spec fn gif_output(old: FileWriterBuilder, b: FileWriterBuilder) -> bool {
    &&& spec_file_stem(old.file_path@) is Some
    &&& b.file_path@ == spec_with_file_name(
        old.file_path@,
        spec_file_stem(old.file_path@)->0 + ".gif"@,
    )
    &&& b.fps == 30
    &&& b.video_codec@ == "gif"@
    &&& b.pixel_format@ == "rgb8"@
    &&& b.width == old.width
    &&& b.height == old.height
    &&& b.vf_args == old.vf_args
    &&& b.extra_codec_args == old.extra_codec_args
}

/// The settings of the ffmpeg process that a scene is written through.
#[derive(Debug, Clone)]
pub struct FileWriterBuilder {
    pub file_path: String,
    pub width: u32,
    pub height: u32,
    pub fps: u32,
    pub vf_args: Vec<String>,
    pub video_codec: String,
    pub pixel_format: String,
    pub extra_codec_args: Vec<String>,
}

impl Default for FileWriterBuilder {
    /// `output.mp4`, 1920x1080 at 60 fps, through the `eq` filter, encoded
    /// with libx264 in yuv420p.
    fn default() -> (b: Self)
        ensures
            b.file_path@ == "output.mp4"@,
            b.width == 1920,
            b.height == 1080,
            b.fps == 60,
            views(b.vf_args@) == seq!["eq=saturation=1.0:gamma=1.0"@],
            b.video_codec@ == "libx264"@,
            b.pixel_format@ == "yuv420p"@,
            b.extra_codec_args@.len() == 0,
    {
        let mut vf_args: Vec<String> = Vec::new();
        vf_args.push(string_of("eq=saturation=1.0:gamma=1.0"));
        assert(views(vf_args@) =~= seq!["eq=saturation=1.0:gamma=1.0"@]);
        FileWriterBuilder {
            file_path: string_of("output.mp4"),
            width: 1920,
            height: 1080,
            fps: 60,
            vf_args,
            video_codec: string_of("libx264"),
            pixel_format: string_of("yuv420p"),
            extra_codec_args: Vec::new(),
        }
    }
}

impl FileWriterBuilder {
    pub fn with_file_path(self, file_path: String) -> (b: Self)
        ensures
            b == (FileWriterBuilder { file_path, ..self }),
    {
        let mut b = self;
        b.file_path = file_path;
        b
    }

    pub fn with_size(self, width: u32, height: u32) -> (b: Self)
        ensures
            b == (FileWriterBuilder { width, height, ..self }),
    {
        let mut b = self;
        b.width = width;
        b.height = height;
        b
    }

    pub fn with_fps(self, fps: u32) -> (b: Self)
        ensures
            b == (FileWriterBuilder { fps, ..self }),
    {
        let mut b = self;
        b.fps = fps;
        b
    }

    /// Set the codec, pixel format, extra codec arguments and file extension
    /// of the format; drop the video filters for formats with alpha; cap
    /// the frame rate of a gif at 50.
    pub fn with_output_format(self, format: OutputFormat) -> (b: Self)
        ensures
            b.video_codec@ == encoding_params_spec(format).0,
            b.pixel_format@ == encoding_params_spec(format).1,
            views(b.extra_codec_args@) == extra_args_spec(format),
            format != OutputFormat::Mov ==> b.extra_codec_args@.len() == 0,
            b.file_path@ == spec_with_extension(self.file_path@, encoding_params_spec(format).2),
            b.vf_args@ == (if has_alpha_spec(format) {
                Seq::<String>::empty()
            } else {
                self.vf_args@
            }),
            b.fps == (if format == OutputFormat::Gif && self.fps > 50 {
                50
            } else {
                self.fps
            }),
            b.width == self.width,
            b.height == self.height,
    {
        let mut b = self;
        let (codec, pix_fmt, ext) = format.encoding_params();
        b.video_codec = string_of(codec);
        b.pixel_format = string_of(pix_fmt);
        b.extra_codec_args = format.extra_args();
        proof {
            reveal_strlit("mp4");
            reveal_strlit("webm");
            reveal_strlit("mov");
            reveal_strlit("gif");
            assert(ext@ == "mp4"@ || ext@ == "webm"@ || ext@ == "mov"@ || ext@ == "gif"@);
            assert(no_separator(ext@)) by {
                if ext@.contains('/') {
                    let i = choose|i: int| 0 <= i < ext@.len() && ext@[i] == '/';
                }
                if ext@.contains('\\') {
                    let i = choose|i: int| 0 <= i < ext@.len() && ext@[i] == '\\';
                }
            }
        }
        b.file_path = path_with_extension(b.file_path.as_str(), ext);
        if !format.supports_eq_filter() {
            b.vf_args.clear();
        }
        if format == OutputFormat::Gif && b.fps > 50 {
            b.fps = 50;
        }
        b
    }

    /// Use libx264rgb with rgb32 pixels.
    pub fn enable_fast_encoding(self) -> (b: Self)
        ensures
            b.video_codec@ == "libx264rgb"@,
            b.pixel_format@ == "rgb32"@,
            b.file_path == self.file_path,
            b.width == self.width,
            b.height == self.height,
            b.fps == self.fps,
            b.vf_args == self.vf_args,
            b.extra_codec_args == self.extra_codec_args,
    {
        let mut b = self;
        b.video_codec = string_of("libx264rgb");
        b.pixel_format = string_of("rgb32");
        b
    }

    /// Write a gif at 30 fps: the file is named after the stem of the
    /// current file name with the `gif` extension.
    pub fn output_gif(self) -> (b: Self)
        requires
            spec_file_stem(self.file_path@) is Some,
        ensures
            gif_output(self, b),
    {
        let mut b = self;
        let stem = path_file_stem(b.file_path.as_str());
        let mut name = match stem {
            Some(s) => s,
            None => String::new(),
        };
        push_str(&mut name, ".gif");
        b.file_path = path_with_file_name(b.file_path.as_str(), name.as_str());
        b.fps = 30;
        b.video_codec = string_of("gif");
        b.pixel_format = string_of("rgb8");
        b
    }

    /// [`Self::output_gif`] where the file path has a stem; `None` where it
    /// has none.
    pub fn try_output_gif(self) -> (r: Option<Self>)
        ensures
            spec_file_stem(self.file_path@) is None ==> r is None,
            spec_file_stem(self.file_path@) is Some ==> (r matches Some(b) && gif_output(self, b)),
    {
        if path_file_stem(self.file_path.as_str()).is_none() {
            None
        } else {
            Some(self.output_gif())
        }
    }
}


/// The ffmpeg arguments that write raw rgba frames from stdin to the file:
/// the input options (size, pixel format, frame rate), then the output
/// options (codec, extra codec arguments, pixel format, the video filters
/// joined by `,` when there are any) and last the file path.
pub open spec fn ffmpeg_args_spec(b: FileWriterBuilder) -> Seq<Seq<char>> {
    seq![
        "-y"@,
        "-f"@,
        "rawvideo"@,
        "-s"@,
        decimal(b.width as nat) + "x"@ + decimal(b.height as nat),
        "-pix_fmt"@,
        "rgba"@,
        "-r"@,
        decimal(b.fps as nat),
        "-i"@,
        "-"@,
        "-an"@,
        "-loglevel"@,
        "error"@,
        "-vcodec"@,
        b.video_codec@,
    ] + views(b.extra_codec_args@) + seq!["-pix_fmt"@, b.pixel_format@] + (if b.vf_args@.len()
        == 0 {
        Seq::<Seq<char>>::empty()
    } else {
        seq!["-vf"@, join(views(b.vf_args@), ","@)]
    }) + seq![b.file_path@]
}

/// The ffmpeg command line reads raw rgba frames of the builder's size and
/// frame rate from stdin (`-y -f rawvideo -s WxH -pix_fmt rgba -r FPS -i -
/// -an -loglevel error`), then writes them with `-vcodec` and the codec,
/// the extra codec arguments right after it, `-pix_fmt` and the pixel
/// format, `-vf` and the filters joined by `,` exactly when there are
/// filters, and last the file path.
pub proof fn lemma_ffmpeg_args_layout(b: FileWriterBuilder)
    ensures
        ({
            let a = ffmpeg_args_spec(b);
            let e = b.extra_codec_args@.len() as int;
            let vf = if b.vf_args@.len() == 0 {
                0int
            } else {
                2int
            };
            &&& a.len() == 19 + e + vf
            &&& a.subrange(0, 4) == seq!["-y"@, "-f"@, "rawvideo"@, "-s"@]
            &&& a[4] == decimal(b.width as nat) + "x"@ + decimal(b.height as nat)
            &&& a.subrange(5, 8) == seq!["-pix_fmt"@, "rgba"@, "-r"@]
            &&& a[8] == decimal(b.fps as nat)
            &&& a.subrange(9, 15) == seq!["-i"@, "-"@, "-an"@, "-loglevel"@, "error"@, "-vcodec"@]
            &&& a[15] == b.video_codec@
            &&& forall|i: int| 0 <= i < e ==> a[16 + i] == (#[trigger] b.extra_codec_args@[i])@
            &&& a[16 + e] == "-pix_fmt"@
            &&& a[17 + e] == b.pixel_format@
            &&& b.vf_args@.len() > 0 ==> a[18 + e] == "-vf"@ && a[19 + e] == join(
                views(b.vf_args@),
                ","@,
            )
            &&& a[a.len() - 1] == b.file_path@
        }),
{
    let a = ffmpeg_args_spec(b);
    let e = b.extra_codec_args@.len() as int;
    assert(a.subrange(0, 4) =~= seq!["-y"@, "-f"@, "rawvideo"@, "-s"@]);
    assert(a.subrange(5, 8) =~= seq!["-pix_fmt"@, "rgba"@, "-r"@]);
    assert(a.subrange(9, 15) =~= seq!["-i"@, "-"@, "-an"@, "-loglevel"@, "error"@, "-vcodec"@]);
}

impl FileWriterBuilder {
    /// The arguments of the ffmpeg process that writes the video.
    pub fn ffmpeg_args(&self) -> (r: Vec<String>)
        ensures
            views(r@) == ffmpeg_args_spec(*self),
    {
        let mut r: Vec<String> = Vec::new();
        r.push(string_of("-y"));
        r.push(string_of("-f"));
        r.push(string_of("rawvideo"));
        r.push(string_of("-s"));
        let mut size = u64_decimal(self.width as u64);
        push_str(&mut size, "x");
        let h = u64_decimal(self.height as u64);
        push_str(&mut size, h.as_str());
        r.push(size);
        r.push(string_of("-pix_fmt"));
        r.push(string_of("rgba"));
        r.push(string_of("-r"));
        r.push(u64_decimal(self.fps as u64));
        r.push(string_of("-i"));
        r.push(string_of("-"));
        r.push(string_of("-an"));
        r.push(string_of("-loglevel"));
        r.push(string_of("error"));
        r.push(string_of("-vcodec"));
        r.push(self.video_codec.clone());
        let ghost head = views(r@);
        assert(head =~= seq![
            "-y"@,
            "-f"@,
            "rawvideo"@,
            "-s"@,
            decimal(self.width as nat) + "x"@ + decimal(self.height as nat),
            "-pix_fmt"@,
            "rgba"@,
            "-r"@,
            decimal(self.fps as nat),
            "-i"@,
            "-"@,
            "-an"@,
            "-loglevel"@,
            "error"@,
            "-vcodec"@,
            self.video_codec@,
        ]);
        let mut i: usize = 0;
        while i < self.extra_codec_args.len()
            invariant
                i <= self.extra_codec_args@.len(),
                views(r@) == head + views(self.extra_codec_args@.take(i as int)),
            decreases self.extra_codec_args@.len() - i,
        {
            let ghost before = r@;
            r.push(self.extra_codec_args[i].clone());
            assert(views(r@) =~= views(before).push(self.extra_codec_args@[i as int]@));
            assert(views(self.extra_codec_args@.take(i as int + 1)) =~= views(
                self.extra_codec_args@.take(i as int),
            ).push(self.extra_codec_args@[i as int]@));
            i += 1;
        }
        assert(self.extra_codec_args@.take(i as int) =~= self.extra_codec_args@);
        r.push(string_of("-pix_fmt"));
        r.push(self.pixel_format.clone());
        let ghost before_vf = views(r@);
        assert(before_vf =~= head + views(self.extra_codec_args@) + seq![
            "-pix_fmt"@,
            self.pixel_format@,
        ]);
        if self.vf_args.len() > 0 {
            r.push(string_of("-vf"));
            r.push(join_strings(&self.vf_args, ","));
        }
        assert(views(r@) =~= before_vf + (if self.vf_args@.len() == 0 {
            Seq::<Seq<char>>::empty()
        } else {
            seq!["-vf"@, join(views(self.vf_args@), ","@)]
        }));
        r.push(self.file_path.clone());
        assert(views(r@) =~= ffmpeg_args_spec(*self));
        r
    }
}

} // verus!
