use vstd::prelude::*;
use vstd::std_specs::convert::FromSpecImpl;

use crate::text::{decimal, push_char, push_str, string_of, u128_decimal, views};

verus! {

/// Which cargo target to build: `--lib` or `--example <name>`; at most one
/// of the two is given.
#[derive(Debug, Clone, Default)]
pub struct TargetArg {
    pub lib: bool,
    pub example: Option<String>,
}

/// The cargo options of the command line: package, features, target and
/// the arguments handed on to `cargo build`.
#[derive(Debug, Clone, Default)]
pub struct CliArgs {
    pub package: Option<String>,
    pub features: Vec<String>,
    pub target: TargetArg,
    pub args: Vec<String>,
}

/// The subcommands.
#[derive(Debug)]
pub enum Commands {
    /// Launch a preview app, watch the lib crate and rebuild it to dylib when it is changed
    Preview { scene: Option<String> },
    /// Build the lib crate and load it, then render it to video
    Render {
        /// Optional scene names to render (if not provided, render all scenes)
        scenes: Vec<String>,
        /// Number of GPU readback buffers (higher = more parallelism, more VRAM)
        buffer_count: usize,
    },
}

/// A parsed command line.
#[derive(Debug)]
pub struct Cli {
    pub command: Commands,
    pub args: CliArgs,
}

/// What a command line asks to be done.
#[derive(Debug)]
pub enum CliAction {
    /// Preview a scene (the first one when none is named).
    Preview { args: CliArgs, scene: Option<String> },
    /// Render the named scenes (all when none is named) with this many
    /// readback buffers.
    Render { args: CliArgs, scenes: Vec<String>, buffer_count: usize },
}

impl Cli {
    /// Decide what the command line asks for: the subcommand, with the
    /// cargo options handed on unchanged.
    pub fn run(self) -> (a: CliAction)
        ensures
            match self.command {
                Commands::Preview { scene } => a == CliAction::Preview { args: self.args, scene },
                Commands::Render { scenes, buffer_count } => a == CliAction::Render {
                    args: self.args,
                    scenes,
                    buffer_count,
                },
            },
    {
        let args = self.args;
        match self.command {
            Commands::Preview { scene } => CliAction::Preview { args, scene },
            Commands::Render { scenes, buffer_count } => CliAction::Render {
                args,
                scenes,
                buffer_count,
            },
        }
    }
}

/// The cargo target that a user library is built as.
#[derive(Debug, Clone, PartialEq, Eq)]
pub enum Target {
    Lib,
    Example(String),
}

impl Default for Target {
    fn default() -> (t: Self)
        ensures
            t == Target::Lib,
    {
        Target::Lib
    }
}

/// The target that a target argument names: the lib when `--lib` is given,
/// else the example when one is named, else the lib.
pub open spec fn target_of(arg: TargetArg) -> Target {
    if arg.lib {
        Target::Lib
    } else {
        match arg.example {
            Some(example) => Target::Example(example),
            None => Target::Lib,
        }
    }
}

impl From<TargetArg> for Target {
    fn from(arg: TargetArg) -> (t: Self) {
        if arg.lib {
            Target::Lib
        } else if let Some(example) = arg.example {
            Target::Example(example)
        } else {
            Target::Lib
        }
    }
}

impl FromSpecImpl<TargetArg> for Target {
    open spec fn obeys_from_spec() -> bool {
        true
    }

    open spec fn from_spec(arg: TargetArg) -> Target {
        target_of(arg)
    }
}


/// Append a copy of each string of `src` to `dst`.
fn push_all(dst: &mut Vec<String>, src: &Vec<String>)
    ensures
        views(final(dst)@) == views(old(dst)@) + views(src@),
{
    let ghost d0 = dst@;
    let mut i: usize = 0;
    while i < src.len()
        invariant
            i <= src@.len(),
            views(dst@) == views(d0) + views(src@.take(i as int)),
        decreases src@.len() - i,
    {
        let ghost before = dst@;
        dst.push(src[i].clone());
        assert(views(dst@) =~= views(before).push(src@[i as int]@));
        assert(views(src@.take(i as int + 1)) =~= views(src@.take(i as int)).push(src@[i as int]@));
        i += 1;
    }
    assert(src@.take(src@.len() as int) =~= src@);
}

/// The arguments that select the target: `--lib`, or `--example <name>`.
pub open spec fn target_args(target: Target) -> Seq<Seq<char>> {
    match target {
        Target::Lib => seq!["--lib"@],
        Target::Example(x) => seq!["--example"@, x@],
    }
}

/// The arguments that enable the features: none when there are none, else
/// `--features` followed by each feature.
pub open spec fn feature_args(features: Seq<String>) -> Seq<Seq<char>> {
    if features.len() == 0 {
        Seq::empty()
    } else {
        seq!["--features"@] + views(features)
    }
}

/// The arguments of the `cargo build` that builds a user library: build the
/// package with colored output, select the target, enable the features,
/// then hand on the extra arguments.
pub open spec fn cargo_build_args_spec(package: Seq<char>, target: Target, args: CliArgs) -> Seq<
    Seq<char>,
> {
    seq!["build"@, "-p"@, package, "--color=always"@] + target_args(target) + feature_args(
        args.features@,
    ) + views(args.args@)
}

/// `--lib` wins over `--example`; without either the lib is the target.
pub proof fn lemma_target_of(arg: TargetArg)
    ensures
        arg.lib ==> target_of(arg) == Target::Lib,
        !arg.lib && arg.example is None ==> target_of(arg) == Target::Lib,
        !arg.lib && arg.example is Some ==> target_of(arg) == Target::Example(arg.example->0),
{
}

/// The cargo command line is `build -p <package> --color=always`, then
/// `--lib` for the lib or `--example <name>` for an example, then
/// `--features` and each feature exactly when there are features, and last
/// the extra arguments in order.
pub proof fn lemma_cargo_build_args_layout(package: Seq<char>, target: Target, args: CliArgs)
    ensures
        ({
            let a = cargo_build_args_spec(package, target, args);
            let t = match target {
                Target::Lib => 1int,
                Target::Example(_) => 2int,
            };
            let f = if args.features@.len() == 0 {
                0int
            } else {
                1 + args.features@.len() as int
            };
            let n = args.args@.len() as int;
            &&& a.len() == 4 + t + f + n
            &&& a.subrange(0, 4) == seq!["build"@, "-p"@, package, "--color=always"@]
            &&& target is Lib ==> a[4] == "--lib"@
            &&& target matches Target::Example(x) ==> a[4] == "--example"@ && a[5] == x@
            &&& args.features@.len() > 0 ==> a[4 + t] == "--features"@
            &&& forall|i: int|
                0 <= i < args.features@.len() ==> a[5 + t + i] == (
                #[trigger] args.features@[i])@
            &&& forall|i: int| 0 <= i < n ==> a[4 + t + f + i] == (#[trigger] args.args@[i])@
        }),
{
    let a = cargo_build_args_spec(package, target, args);
    assert(a.subrange(0, 4) =~= seq!["build"@, "-p"@, package, "--color=always"@]);
}

/// The arguments of the `cargo build` that builds a user library.
pub fn cargo_build_args(package: &str, target: &Target, args: &CliArgs) -> (r: Vec<String>)
    ensures
        views(r@) == cargo_build_args_spec(package@, *target, *args),
{
    let mut r: Vec<String> = Vec::new();
    r.push(string_of("build"));
    r.push(string_of("-p"));
    r.push(string_of(package));
    r.push(string_of("--color=always"));
    let ghost head = views(r@);
    assert(head =~= seq!["build"@, "-p"@, package@, "--color=always"@]);
    match target {
        Target::Lib => {
            r.push(string_of("--lib"));
        },
        Target::Example(x) => {
            r.push(string_of("--example"));
            r.push(x.clone());
        },
    }
    assert(views(r@) =~= head + target_args(*target));
    let ghost with_target = views(r@);
    if args.features.len() > 0 {
        r.push(string_of("--features"));
        push_all(&mut r, &args.features);
    }
    assert(views(r@) =~= with_target + feature_args(args.features@));
    push_all(&mut r, &args.args);
    r
}

/// `s` with every `-` replaced by `_`.
pub open spec fn dashes_to_underscores(s: Seq<char>) -> Seq<char> {
    s.map_values(|c: char| if c == '-' { '_' } else { c })
}

/// The characters of `s` with every `-` replaced by `_`.
pub fn replace_dashes(s: &str) -> (r: String)
    ensures
        r@ == dashes_to_underscores(s@),
{
    let n = s.unicode_len();
    let mut r = String::new();
    let mut i: usize = 0;
    while i < n
        invariant
            n == s@.len(),
            i <= n,
            r@ == dashes_to_underscores(s@.take(i as int)),
        decreases n - i,
    {
        let c = s.get_char(i);
        push_char(&mut r, if c == '-' { '_' } else { c });
        assert(dashes_to_underscores(s@.take(i as int + 1)) =~= dashes_to_underscores(
            s@.take(i as int),
        ).push(if c == '-' { '_' } else { c }));
        i += 1;
    }
    assert(s@.take(n as int) =~= s@);
    r
}

/// Whether `args` holds the argument `--release`.
pub open spec fn has_release_flag(args: Seq<String>) -> bool {
    exists|i: int| 0 <= i < args.len() && #[trigger] args[i]@ == "--release"@
}

/// The operating systems whose dynamic libraries cargo builds.
#[derive(Debug, Clone, Copy, PartialEq, Eq)]
pub enum TargetOs {
    Windows,
    MacOs,
    Linux,
}

/// The file name of the dynamic library `name` on `os`: `<name>.dll`,
/// `lib<name>.dylib` or `lib<name>.so`.
pub open spec fn dylib_file_name(os: TargetOs, name: Seq<char>) -> Seq<char> {
    match os {
        TargetOs::Windows => name + ".dll"@,
        TargetOs::MacOs => "lib"@ + name + ".dylib"@,
        TargetOs::Linux => "lib"@ + name + ".so"@,
    }
}

/// The path of the dynamic library that cargo builds for the target, as
/// the components to join onto the workspace root: `target`, the profile
/// (`release` when the arguments hold `--release`, else `debug`),
/// `examples` for an example, and the library file of the package or
/// example name with `-` replaced by `_`.
pub open spec fn dylib_path_spec(
    workspace_root: Seq<char>,
    package_name: Seq<char>,
    target: Target,
    args: Seq<String>,
    os: TargetOs,
) -> Seq<Seq<char>> {
    let profile = if has_release_flag(args) {
        "release"@
    } else {
        "debug"@
    };
    let dir = seq![workspace_root, "target"@, profile] + match target {
        Target::Lib => Seq::<Seq<char>>::empty(),
        Target::Example(_) => seq!["examples"@],
    };
    let artifact = match target {
        Target::Lib => package_name,
        Target::Example(example) => example@,
    };
    dir.push(dylib_file_name(os, dashes_to_underscores(artifact)))
}

/// The library path starts at the workspace root, goes into `target`, then
/// into `release` when some argument, at any position, is `--release`, and
/// into `debug` otherwise; it ends with the library file, inside `examples`
/// for an example.
pub proof fn lemma_dylib_profile(
    workspace_root: Seq<char>,
    package_name: Seq<char>,
    target: Target,
    args: Seq<String>,
    os: TargetOs,
)
    ensures
        dylib_path_spec(workspace_root, package_name, target, args, os).len() == match target {
            Target::Lib => 4int,
            Target::Example(_) => 5int,
        },
        dylib_path_spec(workspace_root, package_name, target, args, os)[0] == workspace_root,
        dylib_path_spec(workspace_root, package_name, target, args, os)[1] == "target"@,
        dylib_path_spec(workspace_root, package_name, target, args, os)[2] == (if exists|k: int|
            0 <= k < args.len() && #[trigger] args[k]@ == "--release"@ {
            "release"@
        } else {
            "debug"@
        }),
        target is Example ==> dylib_path_spec(workspace_root, package_name, target, args, os)[3]
            == "examples"@,
        ({
            let p = dylib_path_spec(workspace_root, package_name, target, args, os);
            let stem = dashes_to_underscores(
                match target {
                    Target::Lib => package_name,
                    Target::Example(x) => x@,
                },
            );
            &&& os == TargetOs::Linux ==> p[p.len() - 1] == "lib"@ + stem + ".so"@
            &&& os == TargetOs::MacOs ==> p[p.len() - 1] == "lib"@ + stem + ".dylib"@
            &&& os == TargetOs::Windows ==> p[p.len() - 1] == stem + ".dll"@
            &&& stem.len() == (match target {
                Target::Lib => package_name,
                Target::Example(x) => x@,
            }).len()
            &&& forall|i: int|
                0 <= i < stem.len() ==> #[trigger] stem[i] == (if (match target {
                    Target::Lib => package_name,
                    Target::Example(x) => x@,
                })[i] == '-' {
                    '_'
                } else {
                    (match target {
                        Target::Lib => package_name,
                        Target::Example(x) => x@,
                    })[i]
                })
        }),
{
}

/// The path of the dynamic library that cargo builds for the target, as
/// path components starting at the workspace root.
pub fn get_dylib_path(
    workspace_root: &str,
    package_name: &str,
    target: &Target,
    args: &Vec<String>,
    os: TargetOs,
) -> (r: Vec<String>)
    ensures
        views(r@) == dylib_path_spec(workspace_root@, package_name@, *target, args@, os),
        r@.len() >= 4,
        r@[0]@ == workspace_root@,
        r@[1]@ == "target"@,
        r@[2]@ == (if exists|k: int| 0 <= k < args@.len() && #[trigger] args@[k]@ == "--release"@ {
            "release"@
        } else {
            "debug"@
        }),
{
    proof {
        lemma_dylib_profile(workspace_root@, package_name@, *target, args@, os);
    }
    let release = string_of("--release");
    let mut is_release = false;
    let mut i: usize = 0;
    while i < args.len()
        invariant
            i <= args@.len(),
            release@ == "--release"@,
            is_release == exists|k: int| 0 <= k < i && #[trigger] args@[k]@ == "--release"@,
        decreases args@.len() - i,
    {
        if args[i] == release {
            is_release = true;
        }
        i += 1;
    }
    let mut r: Vec<String> = Vec::new();
    r.push(string_of(workspace_root));
    r.push(string_of("target"));
    if is_release {
        r.push(string_of("release"));
    } else {
        r.push(string_of("debug"));
    }
    let artifact: &str = match target {
        Target::Lib => package_name,
        Target::Example(example) => {
            r.push(string_of("examples"));
            example.as_str()
        },
    };
    let replaced = replace_dashes(artifact);
    let name = match os {
        TargetOs::Windows => {
            let mut name = string_of(replaced.as_str());
            push_str(&mut name, ".dll");
            name
        },
        TargetOs::MacOs => {
            let mut name = string_of("lib");
            push_str(&mut name, replaced.as_str());
            push_str(&mut name, ".dylib");
            name
        },
        TargetOs::Linux => {
            let mut name = string_of("lib");
            push_str(&mut name, replaced.as_str());
            push_str(&mut name, ".so");
            name
        },
    };
    r.push(name);
    proof {
        let profile = if has_release_flag(args@) {
            "release"@
        } else {
            "debug"@
        };
        assert(views(r@) =~= dylib_path_spec(workspace_root@, package_name@, *target, args@, os));
    }
    r
}

/// Whether `t` occurs in `s` as a run of consecutive characters.
pub open spec fn contains_run(s: Seq<char>, t: Seq<char>) -> bool {
    exists|i: int| 0 <= i && i + t.len() <= s.len() && #[trigger] s.subrange(i, i + t.len()) == t
}

/// Whether `t` occurs in `s` as a run of consecutive characters.
pub fn str_contains(s: &str, t: &str) -> (r: bool)
    ensures
        r == contains_run(s@, t@),
{
    let n = s.unicode_len();
    let m = t.unicode_len();
    if m > n {
        assert forall|i: int| 0 <= i && i + t@.len() <= s@.len() implies #[trigger] s@.subrange(
            i,
            i + t@.len(),
        ) != t@ by {}
        return false;
    }
    let mut i: usize = 0;
    while i <= n - m
        invariant
            n == s@.len(),
            m == t@.len(),
            m <= n,
            i <= n - m + 1,
            forall|k: int| 0 <= k < i ==> #[trigger] s@.subrange(k, k + m) != t@,
        decreases n - m + 1 - i,
    {
        let mut j: usize = 0;
        let mut same = true;
        while j < m
            invariant
                n == s@.len(),
                m == t@.len(),
                i + m <= n,
                j <= m,
                same == (forall|l: int| 0 <= l < j ==> s@[i + l] == t@[l]),
            decreases m - j,
        {
            if s.get_char(i + j) != t.get_char(j) {
                same = false;
            }
            j += 1;
        }
        if same {
            assert(s@.subrange(i as int, i + m) =~= t@);
            return true;
        }
        assert(s@.subrange(i as int, i + m) != t@) by {
            let l = choose|l: int| 0 <= l < m && s@[i + l] != t@[l];
            assert(s@.subrange(i as int, i + m)[l] == s@[i + l]);
        }
        i += 1;
    }
    assert forall|k: int| 0 <= k && k + t@.len() <= s@.len() implies #[trigger] s@.subrange(
        k,
        k + t@.len(),
    ) != t@ by {
        assert(k < i);
    }
    false
}

/// The filter directives that set the default log levels that the value of
/// `RUST_LOG` does not already mention, in order: `ranim_cli=info`, then
/// `ranim=info`.
pub fn default_log_directives(env: &str) -> (r: Vec<String>)
    ensures
        views(r@) == (if contains_run(env@, "ranim_cli"@) {
            Seq::<Seq<char>>::empty()
        } else {
            seq!["ranim_cli=info"@]
        }) + (if contains_run(env@, "ranim"@) {
            Seq::<Seq<char>>::empty()
        } else {
            seq!["ranim=info"@]
        }),
{
    let mut r: Vec<String> = Vec::new();
    if !str_contains(env, "ranim_cli") {
        r.push(string_of("ranim_cli=info"));
    }
    let ghost first = views(r@);
    if !str_contains(env, "ranim") {
        r.push(string_of("ranim=info"));
    }
    assert(views(r@) =~= first + (if contains_run(env@, "ranim"@) {
        Seq::<Seq<char>>::empty()
    } else {
        seq!["ranim=info"@]
    }));
    r
}

/// What the watch over a running `cargo build` saw: a request to cancel,
/// or else what polling the process gave.
#[derive(Debug, Clone, Copy, PartialEq, Eq)]
pub enum BuildEvent {
    /// Cancelling the build was asked for.
    CancelRequested,
    /// The process has not exited yet.
    StillRunning,
    /// The process exited; `code` is its exit code when it has one.
    Exited { success: bool, code: Option<i32> },
    /// Polling the process failed.
    PollFailed,
}

/// Why a build failed.
#[derive(Debug, Clone, Copy, PartialEq, Eq)]
pub enum BuildFailure {
    /// The build was cancelled.
    Cancelled,
    /// The build exited unsuccessfully, with this exit code when it has one.
    ExitCode(Option<i32>),
    /// The build process could not be polled.
    ProcessError,
}

/// What to do next about a running `cargo build`.
#[derive(Debug, Clone, Copy, PartialEq, Eq)]
pub enum BuildAction {
    /// Poll again.
    KeepWaiting,
    /// Kill the process, wait for it, and fail.
    KillAndFail(BuildFailure),
    /// The build is over, with this outcome.
    Finish(Result<(), BuildFailure>),
}

/// The next step of watching a `cargo build`: a cancel request kills it,
/// a successful exit ends it, an unsuccessful exit or a failed poll fails
/// it, and otherwise the watch goes on.
pub fn next_build_action(event: BuildEvent) -> (a: BuildAction)
    ensures
        a == match event {
            BuildEvent::CancelRequested => BuildAction::KillAndFail(BuildFailure::Cancelled),
            BuildEvent::StillRunning => BuildAction::KeepWaiting,
            BuildEvent::Exited { success, code } => if success {
                BuildAction::Finish(Ok(()))
            } else {
                BuildAction::Finish(Err(BuildFailure::ExitCode(code)))
            },
            BuildEvent::PollFailed => BuildAction::Finish(Err(BuildFailure::ProcessError)),
        },
{
    match event {
        BuildEvent::CancelRequested => BuildAction::KillAndFail(BuildFailure::Cancelled),
        BuildEvent::StillRunning => BuildAction::KeepWaiting,
        BuildEvent::Exited { success, code } => if success {
            BuildAction::Finish(Ok(()))
        } else {
            BuildAction::Finish(Err(BuildFailure::ExitCode(code)))
        },
        BuildEvent::PollFailed => BuildAction::Finish(Err(BuildFailure::ProcessError)),
    }
}

/// The file name under which a built library is copied before it is
/// loaded: `ranim_<pid>_<timestamp>_<file name>`, unique per process and
/// per moment.
pub fn temp_library_name(pid: u32, timestamp_nanos: u128, file_name: &str) -> (r: String)
    ensures
        r@ == "ranim_"@ + decimal(pid as nat) + "_"@ + decimal(timestamp_nanos as nat) + "_"@
            + file_name@,
{
    let mut r = string_of("ranim_");
    let p = u128_decimal(pid as u128);
    push_str(&mut r, p.as_str());
    push_str(&mut r, "_");
    let t = u128_decimal(timestamp_nanos);
    push_str(&mut r, t.as_str());
    push_str(&mut r, "_");
    push_str(&mut r, file_name);
    r
}

} // verus!
