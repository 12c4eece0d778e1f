use xuehua::executor::{
    dispatch_args, launch_args, BubblewrapExecutorOptions, CommandResponse, CommandResponseInfo,
    LuaCommand,
};
use xuehua::fetcher::{verify_fetched, FetchError};
use xuehua::runner::encode_request;
use xuehua::store::ArtifactId;
use xuehua::utils::PassthruHasher;

fn strings(items: &[&str]) -> Vec<String> {
    items.iter().map(|s| String::from(*s)).collect()
}

#[test]
fn dispatch_args_exact_command_line() {
    let options = BubblewrapExecutorOptions {
        network: true,
        add_capabilities: strings(&["CAP_NET_ADMIN"]),
        drop_capabilities: strings(&["CAP_SYS_ADMIN", "CAP_MKNOD"]),
    };
    let command = LuaCommand {
        program: String::from("/busybox"),
        arguments: strings(&["sh", "-c", "make"]),
        environment: vec![(String::from("HOME"), String::from("/build"))],
        working_dir: Some(String::from("/src")),
    };
    let args = dispatch_args(&String::from("/envs/3"), &options, &command);
    let expected = [
        "--bind", "/envs/3", "/", "--ro-bind", "busybox.static", "/busybox", "--proc", "/proc",
        "--dev", "/dev", "--new-session", "--die-with-parent", "--clearenv", "--unshare-all",
        "--cap-add", "CAP_NET_ADMIN", "--cap-drop", "CAP_SYS_ADMIN", "--cap-drop", "CAP_MKNOD",
        "--share-net", "--chdir", "/src", "--setenv", "HOME", "/build", "--", "/busybox", "sh",
        "-c", "make",
    ];
    assert_eq!(args.len(), expected.len());
    for (got, want) in args.iter().zip(expected.iter()) {
        assert_eq!(got, want);
    }
}

#[test]
fn dispatch_args_defaults_have_no_network() {
    let options = BubblewrapExecutorOptions::default();
    assert!(!options.network);
    let command = LuaCommand {
        program: String::from("/busybox"),
        arguments: Vec::new(),
        environment: Vec::new(),
        working_dir: None,
    };
    let args = dispatch_args(&String::from("/e"), &options, &command);
    assert!(!args.iter().any(|a| a == "--share-net"));
    assert!(!args.iter().any(|a| a == "--chdir"));
    assert!(!args.iter().any(|a| a == "--setenv"));
    // The isolation flags are always present.
    for flag in ["--new-session", "--die-with-parent", "--clearenv", "--unshare-all"] {
        assert!(args.iter().any(|a| a == flag), "missing {}", flag);
    }
}

#[test]
fn launch_args_with_dependencies() {
    let options = BubblewrapExecutorOptions::default();
    let args = launch_args(
        &strings(&["/store/content/aa", "/store/content/bb"]),
        &String::from("/builds/0/output"),
        &options,
        &String::from("10"),
    );
    let expected = [
        "--overlay-src", "/store/content/aa", "--overlay-src", "/store/content/bb",
        "--tmp-overlay", "/", "--ro-bind", "busybox.static", "/busybox", "--proc", "/proc",
        "--dev", "/dev", "--bind", "/builds/0/output", "/output", "--new-session",
        "--die-with-parent", "--clearenv", "--unshare-all", "--perms", "0744", "--ro-bind-data",
        "10", "/shell", "--", "/shell",
    ];
    assert_eq!(args.len(), expected.len());
    for (got, want) in args.iter().zip(expected.iter()) {
        assert_eq!(got, want);
    }
}

#[test]
fn launch_args_without_dependencies_has_no_overlay() {
    let args = launch_args(
        &Vec::new(),
        &String::from("/builds/1/output"),
        &BubblewrapExecutorOptions::default(),
        &String::from("10"),
    );
    assert!(!args.iter().any(|a| a == "--overlay-src"));
    assert!(!args.iter().any(|a| a == "--tmp-overlay"));
    assert_eq!(args[0], "--ro-bind");
}

#[test]
fn response_extraction() {
    let ok = CommandResponse {
        info: Some(CommandResponseInfo { exit_code: 0, stderr: Vec::new(), stdout: b"hi".to_vec() }),
        error: None,
    };
    let info = ok.extract().expect("an info frame extracts");
    assert_eq!(info.exit_code, 0);
    assert_eq!(info.stdout, b"hi");

    let failed = CommandResponse { info: None, error: Some(String::from("spawn failed")) };
    assert_eq!(failed.extract().unwrap_err(), "spawn failed");

    let empty = CommandResponse { info: None, error: None };
    assert_eq!(empty.extract().unwrap_err(), "no error or info set");
}

#[test]
fn fetched_content_is_checked_against_expected_hash() {
    let expected = ArtifactId { bytes: vec![7u8; 32] };
    let same = ArtifactId { bytes: vec![7u8; 32] };
    let other = ArtifactId { bytes: vec![8u8; 32] };
    assert!(verify_fetched(&expected, &same).is_ok());
    match verify_fetched(&expected, &other) {
        Err(FetchError::InvalidHash(_)) => {},
        other => panic!("expected an invalid-hash error, got {:?}", other),
    }
}

#[test]
fn passthru_hasher_keeps_the_last_word()
{
    let mut h = PassthruHasher::new();
    assert_eq!(h.finish(), 0);
    h.write_u64(0xdead_beef_0000_0001);
    assert_eq!(h.finish(), 0xdead_beef_0000_0001);
    h.write_u32(7);
    assert_eq!(h.finish(), 7);
    h.write_u16(8);
    assert_eq!(h.finish(), 8);
    h.write_u8(9);
    assert_eq!(h.finish(), 9);
    h.write_usize(10);
    assert_eq!(h.finish(), 10);
}

#[test]
fn request_frame_exact_bytes() {
    let command = LuaCommand {
        program: String::from("/busybox"),
        arguments: strings(&["sh", "-c", "printf hi"]),
        environment: vec![(String::from("PATH"), String::from("/busybox"))],
        working_dir: Some(String::from("/output")),
    };
    let frame = encode_request(&command);
    let expected = "{\"program\":\"/busybox\",\"args\":[\"sh\",\"-c\",\"printf hi\"],\"working_dir\":\"/output\",\"environment\":[\"PATH=/busybox\"]}";
    assert_eq!(String::from_utf8(frame).unwrap(), expected);
}

#[test]
fn request_frame_without_working_dir() {
    let command = LuaCommand {
        program: String::from("make"),
        arguments: Vec::new(),
        environment: Vec::new(),
        working_dir: None,
    };
    let frame = encode_request(&command);
    assert_eq!(
        String::from_utf8(frame).unwrap(),
        "{\"program\":\"make\",\"args\":[],\"working_dir\":null,\"environment\":[]}"
    );
}

#[test]
fn request_escaping_agrees_with_the_reference_encoder() {
    // A program name full of characters that need escaping; the frame's
    // string item must match what the reference encoder produces.
    let nasty = "a\"b\\c\nd\re\tf\u{1}g";
    let command = LuaCommand {
        program: String::from(nasty),
        arguments: Vec::new(),
        environment: Vec::new(),
        working_dir: None,
    };
    let frame = String::from_utf8(encode_request(&command)).unwrap();
    let reference = serde_json::to_string(&serde_json::Value::String(String::from(nasty)))
        .expect("reference encoding should not fail");
    let quoted = &frame["{\"program\":".len()..frame.find(",\"args\"").unwrap()];
    assert_eq!(quoted, reference);
}
