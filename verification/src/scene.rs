use vstd::prelude::*;

use crate::file_writer::OutputFormat;
use crate::text::string_of;

verus! {

/// One `#[output(...)]` attribute of a scene.
#[derive(Debug, Clone, Default)]
pub struct OutputDef {
    pub width: u32,
    pub height: u32,
    pub fps: u32,
    pub save_frames: bool,
    pub name: Option<String>,
    pub dir: String,
    pub format: Option<String>,
}

/// The attributes of a scene function: `#[scene(name = .., clear_color =
/// ..)]`, `#[wasm_demo_doc]` and its `#[output(...)]`s.
#[derive(Debug, Clone, Default)]
pub struct SceneAttrs {
    pub name: Option<String>,
    pub clear_color: Option<String>,
    pub wasm_demo_doc: bool,
    pub outputs: Vec<OutputDef>,
}

/// An output of a scene as the scene descriptor holds it.
#[derive(Debug, Clone)]
pub struct StaticOutputDesc {
    pub width: u32,
    pub height: u32,
    pub fps: u32,
    pub save_frames: bool,
    pub name: Option<String>,
    pub dir: String,
    pub format: OutputFormat,
}

/// The outputs of a scene: the default output when the scene names none.
#[derive(Debug, Clone)]
pub enum SceneOutputs {
    Default,
    Listed(Vec<StaticOutputDesc>),
}

/// What the `#[scene]` attribute makes of a scene function.
#[derive(Debug, Clone)]
pub struct SceneDesc {
    pub name: String,
    pub clear_color: String,
    pub wasm_demo_doc: bool,
    pub outputs: SceneOutputs,
}

/// Why the attributes of a scene are refused.
#[derive(Debug, Clone, PartialEq, Eq)]
pub enum SceneAttrError {
    /// An output names a format other than mp4, webm, mov or gif.
    UnknownOutputFormat(String),
}

/// The format that an output names: mp4 when it names none.
pub open spec fn format_of(format: Option<Seq<char>>) -> Option<OutputFormat> {
    match format {
        None => Some(OutputFormat::Mp4),
        Some(f) => if f == "mp4"@ {
            Some(OutputFormat::Mp4)
        } else if f == "webm"@ {
            Some(OutputFormat::Webm)
        } else if f == "mov"@ {
            Some(OutputFormat::Mov)
        } else if f == "gif"@ {
            Some(OutputFormat::Gif)
        } else {
            None
        },
    }
}

/// An output that names no format is mp4; naming a format by its file
/// extension gives that format back, for each of the four formats; any
/// other name is unknown.
pub proof fn lemma_format_of_extensions(format: OutputFormat, other: Seq<char>)
    ensures
        format_of(None) == Some(OutputFormat::Mp4),
        format_of(Some(crate::file_writer::encoding_params_spec(format).2)) == Some(format),
        other != "mp4"@ && other != "webm"@ && other != "mov"@ && other != "gif"@ ==> format_of(
            Some(other),
        ) is None,
{
    reveal_strlit("mp4");
    reveal_strlit("webm");
    reveal_strlit("mov");
    reveal_strlit("gif");
    assert("webm"@.len() != "mp4"@.len());
    assert("mov"@[1] != "mp4"@[1]);
    assert("mov"@.len() != "webm"@.len());
    assert("gif"@[0] != "mp4"@[0]);
    assert("gif"@.len() != "webm"@.len());
    assert("gif"@[0] != "mov"@[0]);
    crate::file_writer::lemma_encoding_params(format);
}

/// The view of an optional string.
pub open spec fn opt_view(s: Option<String>) -> Option<Seq<char>> {
    match s {
        Some(s) => Some(s@),
        None => None,
    }
}

/// The output name that the descriptor keeps: an empty name counts as none.
pub open spec fn output_name_of(name: Option<Seq<char>>) -> Option<Seq<char>> {
    match name {
        Some(n) => if n.len() == 0 {
            None
        } else {
            Some(n)
        },
        None => None,
    }
}

/// Whether `d` describes the output that `def` defines.
pub open spec fn describes_output(def: OutputDef, d: StaticOutputDesc) -> bool {
    &&& d.width == def.width
    &&& d.height == def.height
    &&& d.fps == def.fps
    &&& d.save_frames == def.save_frames
    &&& opt_view(d.name) == output_name_of(opt_view(def.name))
    &&& d.dir@ == def.dir@
    &&& Some(d.format) == format_of(opt_view(def.format))
}

/// The format that an output attribute names.
pub fn parse_output_format(format: &Option<String>) -> (r: Result<OutputFormat, SceneAttrError>)
    ensures
        match format_of(opt_view(*format)) {
            Some(f) => r == Ok::<OutputFormat, SceneAttrError>(f),
            None => r matches Err(SceneAttrError::UnknownOutputFormat(n)) && Some(n@) == opt_view(
                *format,
            ),
        },
{
    match format {
        None => Ok(OutputFormat::Mp4),
        Some(f) => {
            if *f == string_of("mp4") {
                Ok(OutputFormat::Mp4)
            } else if *f == string_of("webm") {
                Ok(OutputFormat::Webm)
            } else if *f == string_of("mov") {
                Ok(OutputFormat::Mov)
            } else if *f == string_of("gif") {
                Ok(OutputFormat::Gif)
            } else {
                Err(SceneAttrError::UnknownOutputFormat(f.clone()))
            }
        },
    }
}

/// Whether every output attribute names a known format (or none).
pub open spec fn formats_known(outputs: Seq<OutputDef>) -> bool {
    forall|i: int| 0 <= i < outputs.len() ==> format_of(opt_view(#[trigger] outputs[i].format)) is Some
}

/// The descriptor of one output attribute.
fn resolve_output(def: &OutputDef) -> (d: StaticOutputDesc)
    requires
        format_of(opt_view(def.format)) is Some,
    ensures
        describes_output(*def, d),
{
    let format = match parse_output_format(&def.format) {
        Ok(f) => f,
        Err(_) => {
            assert(false);
            OutputFormat::Mp4
        },
    };
    let name = match &def.name {
        Some(n) => if n.as_str().is_empty() {
            None
        } else {
            Some(n.clone())
        },
        None => None,
    };
    StaticOutputDesc {
        width: def.width,
        height: def.height,
        fps: def.fps,
        save_frames: def.save_frames,
        name,
        dir: def.dir.clone(),
        format,
    }
}

/// Resolve the attributes of the scene function `fn_name`: the scene is
/// named after the function unless a name is given, its clear color is
/// `#333333ff` unless one is given, and each output attribute becomes an
/// output (the default output when there are none). Every output must name
/// a known format; [`parse_output_format`] tells which do.
pub fn resolve_scene(attrs: &SceneAttrs, fn_name: &str) -> (d: SceneDesc)
    requires
        formats_known(attrs.outputs@),
    ensures
        d.name@ == (match attrs.name {
            Some(n) => n@,
            None => fn_name@,
        }),
        d.clear_color@ == (match attrs.clear_color {
            Some(c) => c@,
            None => "#333333ff"@,
        }),
        d.wasm_demo_doc == attrs.wasm_demo_doc,
        attrs.outputs@.len() == 0 <==> d.outputs is Default,
        d.outputs matches SceneOutputs::Listed(v) ==> v@.len() == attrs.outputs@.len() && forall|i: int|
            0 <= i < v@.len() ==> describes_output(attrs.outputs@[i], #[trigger] v@[i]),
{
    let mut outputs: Vec<StaticOutputDesc> = Vec::new();
    let mut i: usize = 0;
    while i < attrs.outputs.len()
        invariant
            i <= attrs.outputs@.len(),
            formats_known(attrs.outputs@),
            outputs@.len() == i,
            forall|j: int| 0 <= j < i ==> describes_output(attrs.outputs@[j], #[trigger] outputs@[j]),
        decreases attrs.outputs@.len() - i,
    {
        let d = resolve_output(&attrs.outputs[i]);
        outputs.push(d);
        i += 1;
    }
    let name = match &attrs.name {
        Some(n) => n.clone(),
        None => string_of(fn_name),
    };
    let clear_color = match &attrs.clear_color {
        Some(c) => c.clone(),
        None => string_of("#333333ff"),
    };
    let outputs = if outputs.len() == 0 {
        SceneOutputs::Default
    } else {
        SceneOutputs::Listed(outputs)
    };
    SceneDesc { name, clear_color, wasm_demo_doc: attrs.wasm_demo_doc, outputs }
}

} // verus!
