use ranim::file_writer::OutputFormat;
use ranim::scene::{parse_output_format, resolve_scene, OutputDef, SceneAttrError, SceneAttrs, SceneOutputs};

#[test]
fn scene_defaults_to_the_function_name_and_default_output() {
    let d = resolve_scene(&SceneAttrs::default(), "hello_world");
    assert_eq!(d.name, "hello_world");
    assert_eq!(d.clear_color, "#333333ff");
    assert!(!d.wasm_demo_doc);
    assert!(matches!(d.outputs, SceneOutputs::Default));
}

#[test]
fn scene_keeps_given_name_color_and_outputs() {
    let attrs = SceneAttrs {
        name: Some("intro".to_string()),
        clear_color: Some("#000000ff".to_string()),
        wasm_demo_doc: true,
        outputs: vec![
            OutputDef {
                width: 1280,
                height: 720,
                fps: 30,
                save_frames: false,
                name: Some(String::new()),
                dir: "out".to_string(),
                format: None,
            },
            OutputDef {
                width: 640,
                height: 480,
                fps: 15,
                save_frames: true,
                name: Some("small".to_string()),
                dir: String::new(),
                format: Some("gif".to_string()),
            },
        ],
    };
    let d = resolve_scene(&attrs, "ignored");
    assert_eq!(d.name, "intro");
    assert_eq!(d.clear_color, "#000000ff");
    assert!(d.wasm_demo_doc);
    let SceneOutputs::Listed(v) = d.outputs else {
        panic!("expected listed outputs")
    };
    assert_eq!(v.len(), 2);
    assert_eq!((v[0].width, v[0].height, v[0].fps), (1280, 720, 30));
    assert_eq!(v[0].name, None);
    assert_eq!(v[0].dir, "out");
    assert_eq!(v[0].format, OutputFormat::Mp4);
    assert!(v[1].save_frames);
    assert_eq!(v[1].name, Some("small".to_string()));
    assert_eq!(v[1].format, OutputFormat::Gif);
}

#[test]
fn unknown_output_format_is_found_before_resolving() {
    let mut bad = OutputDef::default();
    bad.format = Some("avi".to_string());
    let attrs = SceneAttrs { outputs: vec![OutputDef::default(), bad], ..SceneAttrs::default() };
    let first_unknown = attrs.outputs.iter().find_map(|o| parse_output_format(&o.format).err());
    assert_eq!(first_unknown, Some(SceneAttrError::UnknownOutputFormat("avi".to_string())));
}

#[test]
fn output_formats_by_name() {
    assert_eq!(parse_output_format(&None), Ok(OutputFormat::Mp4));
    assert_eq!(parse_output_format(&Some("mp4".to_string())), Ok(OutputFormat::Mp4));
    assert_eq!(parse_output_format(&Some("webm".to_string())), Ok(OutputFormat::Webm));
    assert_eq!(parse_output_format(&Some("mov".to_string())), Ok(OutputFormat::Mov));
    assert_eq!(parse_output_format(&Some("gif".to_string())), Ok(OutputFormat::Gif));
    assert_eq!(
        parse_output_format(&Some("MP4".to_string())),
        Err(SceneAttrError::UnknownOutputFormat("MP4".to_string()))
    );
}
