use ranim::examples::{
    example_from_source, ExampleMeta, can_skip_run, code_block, code_hash, example_page, output_file_kind, published_path,
    render_example_command, wasm_bindgen_args, wasm_build_args, OutputFileKind,
};

fn s(v: &[&str]) -> Vec<String> {
    v.iter().map(|x| x.to_string()).collect()
}

#[test]
fn code_hash_is_the_lower_hex_sha1() {
    assert_eq!(code_hash(""), "da39a3ee5e6b4b0d3255bfef95601890afd80709");
    assert_eq!(code_hash("abc"), "a9993e364706816aba3e25717850c26c9cd0d89d");
    assert_ne!(code_hash("fn main() {}"), code_hash("fn main() { }"));
}

#[test]
fn code_block_wraps_in_rust_fences() {
    assert_eq!(code_block("let x = 1;\n"), "```rust\nlet x = 1;\n```");
}

#[test]
fn example_page_without_readme() {
    assert_eq!(
        example_page("hello", None),
        "+++\ntitle = \"hello\"\ntemplate = \"examples-page.html\"\n+++\n\n!example-hello\n"
    );
}

#[test]
fn example_page_readme_ends_in_a_blank_line() {
    let head = "+++\ntitle = \"arc\"\ntemplate = \"examples-page.html\"\n+++\n\n";
    assert_eq!(
        example_page("arc", Some("Arcs.")),
        format!("{head}Arcs.\n\n!example-arc\n")
    );
    assert_eq!(
        example_page("arc", Some("Arcs.\n")),
        format!("{head}Arcs.\n\n!example-arc\n")
    );
    assert_eq!(
        example_page("arc", Some("Arcs.\n\n")),
        format!("{head}Arcs.\n\n!example-arc\n")
    );
    assert_eq!(example_page("arc", Some("")), format!("{head}\n!example-arc\n"));
}

#[test]
fn output_file_kinds() {
    assert_eq!(output_file_kind("preview.png", Some("png")), OutputFileKind::PreviewImage);
    assert_eq!(output_file_kind("preview-1.jpg", Some("jpg")), OutputFileKind::PreviewImage);
    assert_eq!(output_file_kind("preview.mp4", Some("mp4")), OutputFileKind::Skipped);
    assert_eq!(output_file_kind("scene.mp4", Some("mp4")), OutputFileKind::Output);
    assert_eq!(output_file_kind("scene.webm", Some("webm")), OutputFileKind::Output);
    assert_eq!(output_file_kind("scene.gif", Some("gif")), OutputFileKind::Output);
    assert_eq!(output_file_kind("frame.png", Some("png")), OutputFileKind::Output);
    assert_eq!(output_file_kind("notes.txt", Some("txt")), OutputFileKind::Skipped);
    assert_eq!(output_file_kind("README", None), OutputFileKind::Skipped);
}

#[test]
fn runs_are_skipped_only_when_lazy_and_unchanged() {
    assert!(can_skip_run(Some("abc"), "abc", true));
    assert!(!can_skip_run(Some("abc"), "abc", false));
    assert!(!can_skip_run(Some("abd"), "abc", true));
    assert!(!can_skip_run(None, "abc", true));
}

#[test]
fn published_paths_and_commands() {
    assert_eq!(published_path("arc", "output.mp4"), "/examples/arc/output.mp4");
    assert_eq!(
        wasm_build_args("arc"),
        s(&[
            "build",
            "--example",
            "arc",
            "--features",
            "preview",
            "--target",
            "wasm32-unknown-unknown",
            "--release"
        ])
    );
    assert_eq!(
        wasm_bindgen_args("site/pkg", "arc"),
        s(&[
            "--out-dir",
            "site/pkg",
            "--target",
            "web",
            "target/wasm32-unknown-unknown/release/examples/arc.wasm"
        ])
    );
    assert_eq!(render_example_command("arc"), s(&["ranim", "render", "--example", "arc"]));
}

#[test]
fn examples_are_made_from_their_source() {
    let e = example_from_source("arc".to_string(), "examples/arc/main.rs".to_string(), "abc", None);
    assert_eq!(e.name, "arc");
    assert_eq!(e.path, "examples/arc/main.rs");
    assert_eq!(e.code, "```rust\nabc```");
    assert_eq!(e.hash, "a9993e364706816aba3e25717850c26c9cd0d89d");
    assert!(!e.meta.wasm && !e.meta.hide);
    let m = example_from_source(
        "x".to_string(),
        "x.rs".to_string(),
        "",
        Some(ExampleMeta { wasm: true, hide: false }),
    );
    assert!(m.meta.wasm);
}
