use ranim::file_writer::{FileWriterBuilder, OutputFormat};

fn s(v: &[&str]) -> Vec<String> {
    v.iter().map(|x| x.to_string()).collect()
}

#[test]
fn default_settings() {
    let b = FileWriterBuilder::default();
    assert_eq!(b.file_path, "output.mp4");
    assert_eq!((b.width, b.height, b.fps), (1920, 1080, 60));
    assert_eq!(b.vf_args, s(&["eq=saturation=1.0:gamma=1.0"]));
    assert_eq!(b.video_codec, "libx264");
    assert_eq!(b.pixel_format, "yuv420p");
    assert!(b.extra_codec_args.is_empty());
}

#[test]
fn builders_set_what_they_name() {
    let b = FileWriterBuilder::default()
        .with_file_path("out/scene.mp4".to_string())
        .with_size(640, 480)
        .with_fps(24);
    assert_eq!(b.file_path, "out/scene.mp4");
    assert_eq!((b.width, b.height, b.fps), (640, 480, 24));
    let f = b.clone().enable_fast_encoding();
    assert_eq!(f.video_codec, "libx264rgb");
    assert_eq!(f.pixel_format, "rgb32");
    assert_eq!(f.file_path, b.file_path);
}

#[test]
fn encoding_params_of_each_format() {
    assert_eq!(OutputFormat::Mp4.encoding_params(), ("libx264", "yuv420p", "mp4"));
    assert_eq!(OutputFormat::Webm.encoding_params(), ("libvpx-vp9", "yuva420p", "webm"));
    assert_eq!(OutputFormat::Mov.encoding_params(), ("prores_ks", "yuva444p10le", "mov"));
    assert_eq!(OutputFormat::Gif.encoding_params(), ("gif", "rgb8", "gif"));
    assert_eq!(OutputFormat::Mov.extra_args(), s(&["-profile:v", "4444"]));
    assert!(OutputFormat::Gif.extra_args().is_empty());
    assert!(OutputFormat::Webm.has_alpha() && OutputFormat::Mov.has_alpha());
    assert!(!OutputFormat::Mp4.has_alpha() && !OutputFormat::Gif.has_alpha());
    assert!(OutputFormat::Mp4.supports_eq_filter());
    assert!(!OutputFormat::Webm.supports_eq_filter());
}

#[test]
fn output_format_changes_extension_and_filters() {
    let b = FileWriterBuilder::default()
        .with_file_path("videos/intro.mp4".to_string())
        .with_output_format(OutputFormat::Webm);
    assert_eq!(b.file_path, "videos/intro.webm");
    assert_eq!(b.video_codec, "libvpx-vp9");
    assert_eq!(b.pixel_format, "yuva420p");
    assert!(b.vf_args.is_empty());
    assert_eq!(b.fps, 60);

    let m = FileWriterBuilder::default().with_output_format(OutputFormat::Mov);
    assert_eq!(m.file_path, "output.mov");
    assert_eq!(m.extra_codec_args, s(&["-profile:v", "4444"]));

    let g = FileWriterBuilder::default().with_output_format(OutputFormat::Gif);
    assert_eq!(g.file_path, "output.gif");
    assert_eq!(g.fps, 50);
    assert_eq!(g.vf_args, s(&["eq=saturation=1.0:gamma=1.0"]));

    let slow = FileWriterBuilder::default().with_fps(25).with_output_format(OutputFormat::Gif);
    assert_eq!(slow.fps, 25);
}

#[test]
fn output_gif_renames_after_the_stem() {
    let b = FileWriterBuilder::default()
        .with_file_path("out/scene.mp4".to_string())
        .output_gif();
    assert_eq!(b.file_path, "out/scene.gif");
    assert_eq!(b.fps, 30);
    assert_eq!(b.video_codec, "gif");
    assert_eq!(b.pixel_format, "rgb8");
    assert_eq!(b.vf_args, s(&["eq=saturation=1.0:gamma=1.0"]));
}

#[test]
fn try_output_gif_needs_a_stem() {
    let none = FileWriterBuilder::default().with_file_path(String::new()).try_output_gif();
    assert!(none.is_none());
    let some = FileWriterBuilder::default().try_output_gif().unwrap();
    assert_eq!(some.file_path, "output.gif");
}

#[test]
fn ffmpeg_arguments() {
    let b = FileWriterBuilder::default();
    assert_eq!(
        b.ffmpeg_args(),
        s(&[
            "-y", "-f", "rawvideo", "-s", "1920x1080", "-pix_fmt", "rgba", "-r", "60", "-i", "-",
            "-an", "-loglevel", "error", "-vcodec", "libx264", "-pix_fmt", "yuv420p", "-vf",
            "eq=saturation=1.0:gamma=1.0", "output.mp4"
        ])
    );
    let m = FileWriterBuilder::default()
        .with_size(8, 6)
        .with_fps(1)
        .with_output_format(OutputFormat::Mov);
    assert_eq!(
        m.ffmpeg_args(),
        s(&[
            "-y", "-f", "rawvideo", "-s", "8x6", "-pix_fmt", "rgba", "-r", "1", "-i", "-", "-an",
            "-loglevel", "error", "-vcodec", "prores_ks", "-profile:v", "4444", "-pix_fmt",
            "yuva444p10le", "output.mov"
        ])
    );
}
