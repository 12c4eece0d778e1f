//! The executor model: command specifications, command outcomes, and the
//! exact argument lists of the sandbox the reference backend launches.
//!
//! The sandbox itself is an outside process; what is verified here is the
//! assembly of its command line: which bind mounts, restriction flags,
//! capability changes and environment assignments it receives, in which
//! order, for a given command specification and option set.

use vstd::prelude::*;

use crate::package::{clone_string, clone_strings};

verus! {

/// A command specification a build recipe submits for execution.
#[derive(Debug)]
pub struct LuaCommand {
    pub program: String,
    pub arguments: Vec<String>,
    pub environment: Vec<(String, String)>,
    pub working_dir: Option<String>,
}

/// The observable outcome of one executed command.
#[derive(Debug)]
pub struct LuaOutput {
    pub stdout: String,
    pub stderr: String,
    pub exit_code: Option<i32>,
}

/// Construction options of the sandboxed executor.
#[derive(Debug)]
pub struct BubblewrapExecutorOptions {
    /// Whether the sandbox may reach the network.
    pub network: bool,
    /// Linux capabilities to add inside the sandbox.
    pub add_capabilities: Vec<String>,
    /// Linux capabilities to drop inside the sandbox.
    pub drop_capabilities: Vec<String>,
}

impl Default for BubblewrapExecutorOptions {
    /// By default the sandbox has no network and no capability changes.
    fn default() -> (r: Self)
        ensures
            r.network == false,
            r.add_capabilities@.len() == 0,
            r.drop_capabilities@.len() == 0,
    {
        BubblewrapExecutorOptions {
            network: false,
            add_capabilities: Vec::new(),
            drop_capabilities: Vec::new(),
        }
    }
}

/// What the command runner reports back for one request.
#[derive(Debug)]
pub struct CommandResponseInfo {
    pub exit_code: i32,
    pub stderr: Vec<u8>,
    pub stdout: Vec<u8>,
}

/// A response frame: either an outcome or an error message.
#[derive(Debug)]
pub struct CommandResponse {
    pub info: Option<CommandResponseInfo>,
    pub error: Option<String>,
}

impl CommandResponse {
    /// Unwrap a response frame: the outcome when one is present, otherwise
    /// the reported error message (or a fixed note when the frame carries
    /// neither).
    pub fn extract(self) -> (r: Result<CommandResponseInfo, String>)
        ensures
            match r {
                Ok(info) => self.info is Some && info == self.info->0,
                Err(m) => self.info is None && (match self.error {
                    Some(e) => m@ == e@,
                    None => m@ == "no error or info set"@,
                }),
            },
    {
        match self.info {
            Some(info) => Ok(info),
            None => match self.error {
                Some(e) => Err(e),
                None => Err("no error or info set".to_owned()),
            },
        }
    }
}

/// A repeated flag: `flag item` for each item in order.
pub open spec fn spec_flag_pairs(flag: Seq<char>, items: Seq<Seq<char>>) -> Seq<Seq<char>>
    decreases items.len(),
{
    if items.len() == 0 {
        Seq::empty()
    } else {
        spec_flag_pairs(flag, items.drop_last()) + seq![flag, items.last()]
    }
}

/// One `--setenv key value` triple per environment assignment, in order.
pub open spec fn spec_env_flags(vars: Seq<(Seq<char>, Seq<char>)>) -> Seq<Seq<char>>
    decreases vars.len(),
{
    if vars.len() == 0 {
        Seq::empty()
    } else {
        spec_env_flags(vars.drop_last()) + seq!["--setenv"@, vars.last().0, vars.last().1]
    }
}

/// The deep view of a command's environment: each pair of strings as a
/// pair of character sequences.
pub open spec fn spec_env_view(vars: Seq<(String, String)>) -> Seq<(Seq<char>, Seq<char>)> {
    Seq::new(vars.len(), |i: int| (vars[i].0@, vars[i].1@))
}

/// The sandbox invocation that dispatches one command: bind the build
/// environment as the root, provide the tool and device mounts, isolate
/// the session from the host, apply the configured capability changes and
/// network choice, set the working directory and environment, then run the
/// program.
pub open spec fn spec_dispatch_args(
    environment: Seq<char>,
    network: bool,
    add_caps: Seq<Seq<char>>,
    drop_caps: Seq<Seq<char>>,
    cmd: LuaCommand,
) -> Seq<Seq<char>> {
    seq!["--bind"@, environment, "/"@, "--ro-bind"@, "busybox.static"@, "/busybox"@, "--proc"@,
        "/proc"@, "--dev"@, "/dev"@, "--new-session"@, "--die-with-parent"@, "--clearenv"@,
        "--unshare-all"@] + spec_flag_pairs("--cap-add"@, add_caps) + spec_flag_pairs(
        "--cap-drop"@,
        drop_caps,
    ) + (if network {
        seq!["--share-net"@]
    } else {
        Seq::empty()
    }) + (match cmd.working_dir {
        Some(d) => seq!["--chdir"@, d@],
        None => Seq::empty(),
    }) + spec_env_flags(spec_env_view(cmd.environment@)) + seq!["--"@, cmd.program@]
        + cmd.arguments.deep_view()
}

/// Append one string to an argument vector.
fn push_str(out: &mut Vec<String>, s: &str)
    ensures
        final(out).deep_view() == old(out).deep_view().push(s@),
{
    out.push(s.to_owned());
    proof {
        assert(final(out).deep_view() =~= old(out).deep_view().push(s@));
    }
}

/// Append a copy of one string to an argument vector.
fn push_string(out: &mut Vec<String>, s: &String)
    ensures
        final(out).deep_view() == old(out).deep_view().push(s@),
{
    out.push(clone_string(s));
    proof {
        assert(final(out).deep_view() =~= old(out).deep_view().push(s@));
    }
}

/// Append `flag item` for every item.
fn push_flag_pairs(out: &mut Vec<String>, flag: &str, items: &Vec<String>)
    ensures
        final(out).deep_view() == old(out).deep_view() + spec_flag_pairs(
            flag@,
            items.deep_view(),
        ),
{
    let mut i: usize = 0;
    while i < items.len()
        invariant
            i <= items@.len(),
            out.deep_view() == old(out).deep_view() + spec_flag_pairs(
                flag@,
                items.deep_view().take(i as int),
            ),
        decreases items@.len() - i,
    {
        push_str(out, flag);
        push_string(out, &items[i]);
        proof {
            assert(items.deep_view().take(i as int + 1).drop_last() =~= items.deep_view().take(
                i as int,
            ));
            assert(items.deep_view().take(i as int + 1).last() == items.deep_view()[i as int]);
            assert(out.deep_view() =~= old(out).deep_view() + spec_flag_pairs(
                flag@,
                items.deep_view().take(i as int + 1),
            ));
        }
        i = i + 1;
    }
    proof {
        assert(items.deep_view().take(items.deep_view().len() as int) =~= items.deep_view());
    }
}

/// Build the sandbox argument list for dispatching one command in the
/// build environment rooted at `environment`.
pub fn dispatch_args(
    environment: &String,
    options: &BubblewrapExecutorOptions,
    command: &LuaCommand,
) -> (r: Vec<String>)
    ensures
        r.deep_view() == spec_dispatch_args(
            environment@,
            options.network,
            options.add_capabilities.deep_view(),
            options.drop_capabilities.deep_view(),
            *command,
        ),
{
    let mut r: Vec<String> = Vec::new();
    push_str(&mut r, "--bind");
    push_string(&mut r, environment);
    push_str(&mut r, "/");
    push_str(&mut r, "--ro-bind");
    push_str(&mut r, "busybox.static");
    push_str(&mut r, "/busybox");
    push_str(&mut r, "--proc");
    push_str(&mut r, "/proc");
    push_str(&mut r, "--dev");
    push_str(&mut r, "/dev");
    push_str(&mut r, "--new-session");
    push_str(&mut r, "--die-with-parent");
    push_str(&mut r, "--clearenv");
    push_str(&mut r, "--unshare-all");
    let ghost base = seq!["--bind"@, environment@, "/"@, "--ro-bind"@, "busybox.static"@,
        "/busybox"@, "--proc"@, "/proc"@, "--dev"@, "/dev"@, "--new-session"@,
        "--die-with-parent"@, "--clearenv"@, "--unshare-all"@];
    proof {
        assert(r.deep_view() =~= base);
    }
    push_flag_pairs(&mut r, "--cap-add", &options.add_capabilities);
    push_flag_pairs(&mut r, "--cap-drop", &options.drop_capabilities);
    let ghost with_caps = base + spec_flag_pairs(
        "--cap-add"@,
        options.add_capabilities.deep_view(),
    ) + spec_flag_pairs("--cap-drop"@, options.drop_capabilities.deep_view());
    proof {
        assert(r.deep_view() =~= with_caps);
    }
    if options.network {
        push_str(&mut r, "--share-net");
    }
    let ghost with_net = with_caps + (if options.network {
        seq!["--share-net"@]
    } else {
        Seq::<Seq<char>>::empty()
    });
    proof {
        assert(r.deep_view() =~= with_net);
    }
    match &command.working_dir {
        Some(d) => {
            push_str(&mut r, "--chdir");
            push_string(&mut r, d);
        },
        None => {},
    }
    let ghost with_wd = with_net + (if command.working_dir is Some {
        seq!["--chdir"@, command.working_dir->0@]
    } else {
        Seq::<Seq<char>>::empty()
    });
    proof {
        assert(r.deep_view() =~= with_wd);
    }
    let mut i: usize = 0;
    while i < command.environment.len()
        invariant
            i <= command.environment@.len(),
            r.deep_view() == with_wd + spec_env_flags(
                spec_env_view(command.environment@).take(i as int),
            ),
        decreases command.environment@.len() - i,
    {
        push_str(&mut r, "--setenv");
        push_string(&mut r, &command.environment[i].0);
        push_string(&mut r, &command.environment[i].1);
        proof {
            let ev = spec_env_view(command.environment@);
            assert(ev.take(i as int + 1).drop_last() =~= ev.take(i as int));
            assert(ev.take(i as int + 1).last() == ev[i as int]);
            assert(r.deep_view() =~= with_wd + spec_env_flags(ev.take(i as int + 1)));
        }
        i = i + 1;
    }
    proof {
        let ev = spec_env_view(command.environment@);
        assert(ev.take(ev.len() as int) =~= ev);
    }
    push_str(&mut r, "--");
    push_string(&mut r, &command.program);
    let mut j: usize = 0;
    while j < command.arguments.len()
        invariant
            j <= command.arguments@.len(),
            r.deep_view() == with_wd + spec_env_flags(spec_env_view(command.environment@)) + seq![
                "--"@,
                command.program@,
            ] + command.arguments.deep_view().take(j as int),
        decreases command.arguments@.len() - j,
    {
        push_string(&mut r, &command.arguments[j]);
        proof {
            let av = command.arguments.deep_view();
            assert(av.take(j as int + 1) =~= av.take(j as int).push(av[j as int]));
            assert(r.deep_view() =~= with_wd + spec_env_flags(
                spec_env_view(command.environment@),
            ) + seq!["--"@, command.program@] + av.take(j as int + 1));
        }
        j = j + 1;
    }
    proof {
        let av = command.arguments.deep_view();
        assert(av.take(av.len() as int) =~= av);
        assert(r.deep_view() =~= spec_dispatch_args(
            environment@,
            options.network,
            options.add_capabilities.deep_view(),
            options.drop_capabilities.deep_view(),
            *command,
        ));
    }
    r
}

/// The sandbox invocation that launches a persistent build sandbox: one
/// overlay source per dependency directory merged under a temporary
/// overlay root, the tool and device mounts, the build output bound at
/// `/output`, the isolation flags, the configured capability changes and
/// network choice, the command runner bound at `/shell`, and finally the
/// runner itself as the command.
pub open spec fn spec_launch_args(
    dependencies: Seq<Seq<char>>,
    output: Seq<char>,
    network: bool,
    add_caps: Seq<Seq<char>>,
    drop_caps: Seq<Seq<char>>,
    runner_fd: Seq<char>,
) -> Seq<Seq<char>> {
    (if dependencies.len() == 0 {
        Seq::empty()
    } else {
        spec_flag_pairs("--overlay-src"@, dependencies) + seq!["--tmp-overlay"@, "/"@]
    }) + seq!["--ro-bind"@, "busybox.static"@, "/busybox"@, "--proc"@, "/proc"@, "--dev"@,
        "/dev"@, "--bind"@, output, "/output"@, "--new-session"@, "--die-with-parent"@,
        "--clearenv"@, "--unshare-all"@] + spec_flag_pairs("--cap-add"@, add_caps)
        + spec_flag_pairs("--cap-drop"@, drop_caps) + (if network {
        seq!["--share-net"@]
    } else {
        Seq::empty()
    }) + seq!["--perms"@, "0744"@, "--ro-bind-data"@, runner_fd, "/shell"@, "--"@, "/shell"@]
}

/// Build the sandbox argument list for launching one persistent build
/// sandbox whose command runner is served on file descriptor `runner_fd`.
pub fn launch_args(
    dependencies: &Vec<String>,
    output: &String,
    options: &BubblewrapExecutorOptions,
    runner_fd: &String,
) -> (r: Vec<String>)
    ensures
        r.deep_view() == spec_launch_args(
            dependencies.deep_view(),
            output@,
            options.network,
            options.add_capabilities.deep_view(),
            options.drop_capabilities.deep_view(),
            runner_fd@,
        ),
{
    let mut r: Vec<String> = Vec::new();
    if dependencies.len() > 0 {
        push_flag_pairs(&mut r, "--overlay-src", dependencies);
        push_str(&mut r, "--tmp-overlay");
        push_str(&mut r, "/");
    }
    let ghost overlay = if dependencies.deep_view().len() == 0 {
        Seq::<Seq<char>>::empty()
    } else {
        spec_flag_pairs("--overlay-src"@, dependencies.deep_view()) + seq!["--tmp-overlay"@, "/"@]
    };
    proof {
        assert(r.deep_view() =~= overlay);
    }
    push_str(&mut r, "--ro-bind");
    push_str(&mut r, "busybox.static");
    push_str(&mut r, "/busybox");
    push_str(&mut r, "--proc");
    push_str(&mut r, "/proc");
    push_str(&mut r, "--dev");
    push_str(&mut r, "/dev");
    push_str(&mut r, "--bind");
    push_string(&mut r, output);
    push_str(&mut r, "/output");
    push_str(&mut r, "--new-session");
    push_str(&mut r, "--die-with-parent");
    push_str(&mut r, "--clearenv");
    push_str(&mut r, "--unshare-all");
    let ghost with_base = overlay + seq!["--ro-bind"@, "busybox.static"@, "/busybox"@, "--proc"@,
        "/proc"@, "--dev"@, "/dev"@, "--bind"@, output@, "/output"@, "--new-session"@,
        "--die-with-parent"@, "--clearenv"@, "--unshare-all"@];
    proof {
        assert(r.deep_view() =~= with_base);
    }
    push_flag_pairs(&mut r, "--cap-add", &options.add_capabilities);
    push_flag_pairs(&mut r, "--cap-drop", &options.drop_capabilities);
    if options.network {
        push_str(&mut r, "--share-net");
    }
    let ghost with_caps = with_base + spec_flag_pairs(
        "--cap-add"@,
        options.add_capabilities.deep_view(),
    ) + spec_flag_pairs("--cap-drop"@, options.drop_capabilities.deep_view()) + (
    if options.network {
        seq!["--share-net"@]
    } else {
        Seq::<Seq<char>>::empty()
    });
    proof {
        assert(r.deep_view() =~= with_caps);
    }
    push_str(&mut r, "--perms");
    push_str(&mut r, "0744");
    push_str(&mut r, "--ro-bind-data");
    push_string(&mut r, runner_fd);
    push_str(&mut r, "/shell");
    push_str(&mut r, "--");
    push_str(&mut r, "/shell");
    proof {
        assert(r.deep_view() =~= spec_launch_args(
            dependencies.deep_view(),
            output@,
            options.network,
            options.add_capabilities.deep_view(),
            options.drop_capabilities.deep_view(),
            runner_fd@,
        ));
    }
    r
}

} // verus!
