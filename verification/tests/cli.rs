use clap::{Arg, ArgAction, ArgGroup, ArgMatches, Command};
use ranim::cli::{
    temp_library_name, next_build_action, BuildAction, BuildEvent, BuildFailure, cargo_build_args, default_log_directives, get_dylib_path, replace_dashes, str_contains, Cli,
    CliAction, CliArgs, Commands, Target, TargetArg, TargetOs,
};

/// The command line of `ranim`, built with clap's builder API.
fn cli_command() -> Command {
    Command::new("ranim")
        .about("A CLI tool for Ranim animation library")
        .subcommand_required(true)
        .arg(
            Arg::new("package")
                .short('p')
                .long("package")
                .global(true)
                .action(ArgAction::Set),
        )
        .arg(Arg::new("features").long("features").global(true).action(ArgAction::Append))
        .arg(Arg::new("lib").long("lib").global(true).action(ArgAction::SetTrue))
        .arg(Arg::new("example").long("example").global(true).action(ArgAction::Set))
        .group(ArgGroup::new("target").args(["lib", "example"]).multiple(false))
        .arg(
            Arg::new("args")
                .num_args(0..)
                .trailing_var_arg(true)
                .allow_hyphen_values(true)
                .action(ArgAction::Append),
        )
        .subcommand(Command::new("preview").arg(Arg::new("scene")))
        .subcommand(
            Command::new("render")
                .arg(Arg::new("scenes").num_args(0..).action(ArgAction::Append))
                .arg(Arg::new("buffer_count").long("buffer-count").default_value("2")),
        )
}

fn strings(m: &ArgMatches, id: &str) -> Vec<String> {
    m.get_many::<String>(id).map(|v| v.cloned().collect()).unwrap_or_default()
}

fn parse_cli(args: &[&str]) -> Result<Cli, clap::Error> {
    let m = cli_command().try_get_matches_from(args)?;
    let command = match m.subcommand() {
        Some(("preview", sm)) => Commands::Preview { scene: sm.get_one::<String>("scene").cloned() },
        Some(("render", sm)) => Commands::Render {
            scenes: strings(sm, "scenes"),
            buffer_count: sm.get_one::<String>("buffer_count").unwrap().parse().unwrap(),
        },
        _ => unreachable!(),
    };
    let args = CliArgs {
        package: m.get_one::<String>("package").cloned(),
        features: strings(&m, "features"),
        target: TargetArg { lib: m.get_flag("lib"), example: m.get_one::<String>("example").cloned() },
        args: strings(&m, "args"),
    };
    Ok(Cli { command, args })
}

#[test]
fn test_cli() {
    let parse_args = |args: &[&str]| {
        println!("parsing args {:?}", args);
        let cli = parse_cli(args);
        println!("result: {:?}", cli);
        cli
    };
    let cli = parse_args(&["ranim", "render", "-p", "package"]).unwrap();
    let Commands::Render { scenes, .. } = &cli.command else {
        unreachable!()
    };
    assert!(scenes.is_empty());
    assert_eq!(cli.args.package, Some("package".to_string()));
    assert!(!cli.args.target.lib);
    assert!(cli.args.target.example.is_none());

    let cli = parse_args(&["ranim", "preview", "--lib"]).unwrap();
    assert!(matches!(cli.command, Commands::Preview { scene: None }));
    assert!(cli.args.package.is_none());
    let TargetArg { lib, example } = cli.args.target.clone();
    assert!(lib);
    assert!(example.is_none());
    assert_eq!(Target::from(cli.args.target.clone()), Target::Lib);

    let cli = parse_args(&["ranim", "preview", "--example", "example"]).unwrap();
    assert!(matches!(cli.command, Commands::Preview { scene: None }));
    assert!(cli.args.package.is_none());
    let TargetArg { lib, example } = cli.args.target.clone();
    assert!(!lib);
    assert_eq!(example, Some("example".to_string()));
    assert_eq!(
        Target::from(cli.args.target.clone()),
        Target::Example("example".to_string())
    );
}

fn s(v: &[&str]) -> Vec<String> {
    v.iter().map(|x| x.to_string()).collect()
}

#[test]
fn target_from_arg_prefers_lib() {
    assert_eq!(Target::from(TargetArg { lib: true, example: Some("x".to_string()) }), Target::Lib);
    assert_eq!(Target::from(TargetArg { lib: false, example: None }), Target::Lib);
    assert_eq!(Target::default(), Target::Lib);
}

#[test]
fn run_hands_on_the_subcommand() {
    let args = CliArgs { package: Some("demo".to_string()), ..CliArgs::default() };
    let cli = Cli { command: Commands::Preview { scene: Some("intro".to_string()) }, args };
    match cli.run() {
        CliAction::Preview { args, scene } => {
            assert_eq!(args.package, Some("demo".to_string()));
            assert_eq!(scene, Some("intro".to_string()));
        }
        other => panic!("unexpected {:?}", other),
    }
    let cli = Cli {
        command: Commands::Render { scenes: s(&["a", "b"]), buffer_count: 3 },
        args: CliArgs::default(),
    };
    match cli.run() {
        CliAction::Render { scenes, buffer_count, .. } => {
            assert_eq!(scenes, s(&["a", "b"]));
            assert_eq!(buffer_count, 3);
        }
        other => panic!("unexpected {:?}", other),
    }
}

#[test]
fn cargo_build_args_for_lib_and_example() {
    let args = CliArgs::default();
    assert_eq!(
        cargo_build_args("demo", &Target::Lib, &args),
        s(&["build", "-p", "demo", "--color=always", "--lib"])
    );
    let args = CliArgs {
        package: None,
        features: s(&["app", "profiling"]),
        target: TargetArg::default(),
        args: s(&["--release"]),
    };
    assert_eq!(
        cargo_build_args("demo", &Target::Example("hello".to_string()), &args),
        s(&[
            "build",
            "-p",
            "demo",
            "--color=always",
            "--example",
            "hello",
            "--features",
            "app",
            "profiling",
            "--release"
        ])
    );
}

#[test]
fn dylib_path_of_lib_and_example() {
    assert_eq!(
        get_dylib_path("/ws", "my-scenes", &Target::Lib, &vec![], TargetOs::Linux),
        s(&["/ws", "target", "debug", "libmy_scenes.so"])
    );
    assert_eq!(
        get_dylib_path(
            "/ws",
            "pkg",
            &Target::Example("hello-world".to_string()),
            &s(&["--release"]),
            TargetOs::Linux
        ),
        s(&["/ws", "target", "release", "examples", "libhello_world.so"])
    );
    assert_eq!(
        get_dylib_path("C:/ws", "my-scenes", &Target::Lib, &vec![], TargetOs::Windows),
        s(&["C:/ws", "target", "debug", "my_scenes.dll"])
    );
    assert_eq!(
        get_dylib_path("/ws", "my-scenes", &Target::Lib, &s(&["--release"]), TargetOs::MacOs),
        s(&["/ws", "target", "release", "libmy_scenes.dylib"])
    );
}

#[test]
fn replace_dashes_and_contains() {
    assert_eq!(replace_dashes("a-b--c"), "a_b__c");
    assert_eq!(replace_dashes(""), "");
    assert!(str_contains("ranim_cli=debug", "ranim_cli"));
    assert!(str_contains("abc", ""));
    assert!(!str_contains("ran", "ranim"));
    assert!(!str_contains("rxnim", "ranim"));
}

#[test]
fn log_directives_fill_in_what_is_missing() {
    assert_eq!(default_log_directives(""), s(&["ranim_cli=info", "ranim=info"]));
    assert_eq!(default_log_directives("ranim=debug"), s(&["ranim_cli=info"]));
    assert_eq!(default_log_directives("ranim_cli=trace"), Vec::<String>::new());
    assert_eq!(default_log_directives("wgpu=warn"), s(&["ranim_cli=info", "ranim=info"]));
}

#[test]
fn build_watch_decisions() {
    assert_eq!(
        next_build_action(BuildEvent::CancelRequested),
        BuildAction::KillAndFail(BuildFailure::Cancelled)
    );
    assert_eq!(next_build_action(BuildEvent::StillRunning), BuildAction::KeepWaiting);
    assert_eq!(
        next_build_action(BuildEvent::Exited { success: true, code: Some(0) }),
        BuildAction::Finish(Ok(()))
    );
    assert_eq!(
        next_build_action(BuildEvent::Exited { success: false, code: Some(101) }),
        BuildAction::Finish(Err(BuildFailure::ExitCode(Some(101))))
    );
    assert_eq!(
        next_build_action(BuildEvent::PollFailed),
        BuildAction::Finish(Err(BuildFailure::ProcessError))
    );
}

#[test]
fn temp_library_names() {
    assert_eq!(
        temp_library_name(4242, 1_700_000_000_123_456_789, "libdemo.so"),
        "ranim_4242_1700000000123456789_libdemo.so"
    );
    assert_eq!(temp_library_name(0, u128::MAX, "x"), format!("ranim_0_{}_x", u128::MAX));
}
