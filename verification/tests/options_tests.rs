use xuehua::options::{get_options, BaseOptions, CliOptions, InspectSub, Options, Subcommand};

#[test]
fn options_test_verify_args() {
    let cli = CliOptions {
        dry_run: false,
        subcommand: Subcommand::Build { package: String::from("p1@tools") },
    };
    assert!(!cli.dry_run);
    match &cli.subcommand {
        Subcommand::Build { package } => assert_eq!(package, "p1@tools"),
        _ => panic!("expected the build subcommand"),
    }
    let inspect = CliOptions {
        dry_run: true,
        subcommand: Subcommand::Inspect {
            subcommand: InspectSub::Plan { path: String::from("plan.lua") },
        },
    };
    match &inspect.subcommand {
        Subcommand::Inspect { subcommand: InspectSub::Plan { path } } => {
            assert_eq!(path, "plan.lua")
        },
        _ => panic!("expected the inspect subcommand"),
    }
}

#[test]
fn cli_test_verify_args() {
    let link = CliOptions {
        dry_run: false,
        subcommand: Subcommand::Link { reverse: true, package: String::from("lib@core") },
    };
    match &link.subcommand {
        Subcommand::Link { reverse, package } => {
            assert!(*reverse);
            assert_eq!(package, "lib@core");
        },
        _ => panic!("expected the link subcommand"),
    }
    let shell = CliOptions {
        dry_run: false,
        subcommand: Subcommand::Shell { package: String::from("sh@core") },
    };
    assert!(matches!(shell.subcommand, Subcommand::Shell { .. }));
    assert!(matches!(
        CliOptions { dry_run: false, subcommand: Subcommand::GC }.subcommand,
        Subcommand::GC
    ));
    assert!(matches!(
        CliOptions { dry_run: false, subcommand: Subcommand::Repair }.subcommand,
        Subcommand::Repair
    ));
}

#[test]
fn base_options_default_values() {
    let base = BaseOptions::default();
    assert_eq!(base.root, "/");
    assert!(base.sandbox);
}

#[test]
fn get_options_uses_given_base() {
    let cli = CliOptions { dry_run: true, subcommand: Subcommand::GC };
    let opts: Options = get_options(
        cli,
        Some(BaseOptions { root: String::from("/var/lib/xh"), sandbox: false }),
    );
    assert!(opts.cli.dry_run);
    assert_eq!(opts.base.root, "/var/lib/xh");
    assert!(!opts.base.sandbox);
}

#[test]
fn get_options_falls_back_to_defaults() {
    let cli = CliOptions { dry_run: false, subcommand: Subcommand::Repair };
    let opts = get_options(cli, None);
    assert_eq!(opts.base.root, "/");
    assert!(opts.base.sandbox);
}
