//! Plans a sandboxed editor run: the exact program invocation and
//! environment for one startup against a given init script. Spawning
//! the process is the caller's work; everything decided about the
//! invocation is stated here.

use vstd::prelude::*;
use vstd::string::StringExecFns;

verus! {

/// One switch of a planned editor startup.
pub enum StartupOption {
    /// An extra environment variable.
    Env(String, String),
    Headless,
    /// Prepend the working tree to the editor's search path.
    SetRtp,
    /// Write startup timings to the given file.
    StartupTime(String),
    /// Quit right after startup.
    Quit,
    /// Quit with an exit code taken from the run's outcome.
    QuitWithCode,
}

/// A fully decided invocation: program, arguments, environment, and the
/// sandbox directory to create (fresh, when asked) before the run.
pub struct CommandPlan {
    pub program: String,
    pub args: Vec<String>,
    pub envs: Vec<(String, String)>,
    pub sandbox: String,
    pub recreate_sandbox: bool,
}

/// The arguments one startup option contributes, in order.
pub open spec fn spec_opt_args(o: StartupOption) -> Seq<Seq<char>> {
    match o {
        StartupOption::Env(k, v) => Seq::<Seq<char>>::empty(),
        StartupOption::Headless => seq!["--headless"@],
        StartupOption::SetRtp => seq!["--cmd"@, "set rtp^=.."@],
        StartupOption::StartupTime(f) => seq!["--startuptime"@, f@],
        StartupOption::Quit => seq!["-c"@, "quitall!"@],
        StartupOption::QuitWithCode => seq!["-S"@, "../scripts/quit.vim"@],
    }
}

/// The environment entries one startup option contributes.
pub open spec fn spec_opt_envs(o: StartupOption) -> Seq<(Seq<char>, Seq<char>)> {
    match o {
        StartupOption::Env(k, v) => seq![(k@, v@)],
        _ => Seq::<(Seq<char>, Seq<char>)>::empty(),
    }
}

pub open spec fn spec_args(vimrc: Seq<char>, opts: Seq<StartupOption>) -> Seq<Seq<char>>
    decreases opts.len(),
{
    if opts.len() == 0 {
        seq!["-u"@, vimrc]
    } else {
        spec_args(vimrc, opts.drop_last()) + spec_opt_args(opts.last())
    }
}

/// The sandbox the run is confined to.
pub open spec fn spec_sandbox(vimrc: Seq<char>) -> Seq<char> {
    "temp"@ + "/"@ + vimrc
}

/// The virtual-environment variables pointing the editor at the
/// sandbox, in the order they are set.
pub open spec fn spec_base_envs(sandbox: Seq<char>) -> Seq<(Seq<char>, Seq<char>)> {
    seq![
        ("NVIM_APPNAME"@, "nvim"@),
        ("XDG_DATA_HOME"@, sandbox + "/"@ + "data"@),
        ("XDG_STATE_HOME"@, sandbox + "/"@ + "state"@),
        ("XDG_CACHE_HOME"@, sandbox + "/"@ + "cache"@),
        ("XDG_CONFIG_HOME"@, sandbox + "/"@ + "config"@),
        ("XDG_RUNTIME_DIR"@, sandbox + "/"@ + "run"@),
        ("NVIM_LOG_FILE"@, sandbox + "/"@ + "log"@ + "/"@ + "log"@),
    ]
}

pub open spec fn spec_envs(sandbox: Seq<char>, opts: Seq<StartupOption>) -> Seq<
    (Seq<char>, Seq<char>),
>
    decreases opts.len(),
{
    if opts.len() == 0 {
        spec_base_envs(sandbox)
    } else {
        spec_envs(sandbox, opts.drop_last()) + spec_opt_envs(opts.last())
    }
}

pub open spec fn envs_view(e: Seq<(String, String)>) -> Seq<(Seq<char>, Seq<char>)> {
    Seq::new(e.len(), |i: int| (e[i].0@, e[i].1@))
}

fn join_slash(a: &str, b: &str) -> (r: String)
    ensures
        r@ == a@ + "/"@ + b@,
{
    let mut s = a.to_owned();
    s.append("/");
    s.append(b);
    s
}

fn push_env(envs: &mut Vec<(String, String)>, k: &str, v: String)
    ensures
        envs_view(final(envs)@) == envs_view(old(envs)@).push((k@, v@)),
{
    let ghost pre = envs@;
    envs.push((k.to_owned(), v));
    proof {
        assert(envs_view(envs@) =~= envs_view(pre).push((k@, v@)));
    }
}

/// Plans one editor run against `vimrc` inside its sandbox, with the
/// given startup options applied in order.
pub fn run(vimrc: &str, recreate_sandbox: bool, opts: &Vec<StartupOption>) -> (r:
    CommandPlan)
    ensures
        r.program@ == "nvim"@,
        r.args.deep_view() == spec_args(vimrc@, opts@),
        envs_view(r.envs@) == spec_envs(spec_sandbox(vimrc@), opts@),
        r.sandbox@ == spec_sandbox(vimrc@),
        r.recreate_sandbox == recreate_sandbox,
{
    let sandbox = join_slash("temp", vimrc);
    let mut args: Vec<String> = Vec::new();
    args.push("-u".to_owned());
    args.push(vimrc.to_owned());
    let mut envs: Vec<(String, String)> = Vec::new();
    push_env(&mut envs, "NVIM_APPNAME", "nvim".to_owned());
    push_env(&mut envs, "XDG_DATA_HOME", join_slash(sandbox.as_str(), "data"));
    push_env(&mut envs, "XDG_STATE_HOME", join_slash(sandbox.as_str(), "state"));
    push_env(&mut envs, "XDG_CACHE_HOME", join_slash(sandbox.as_str(), "cache"));
    push_env(&mut envs, "XDG_CONFIG_HOME", join_slash(sandbox.as_str(), "config"));
    push_env(&mut envs, "XDG_RUNTIME_DIR", join_slash(sandbox.as_str(), "run"));
    let log_dir = join_slash(sandbox.as_str(), "log");
    push_env(&mut envs, "NVIM_LOG_FILE", join_slash(log_dir.as_str(), "log"));
    proof {
        assert(args.deep_view() =~= spec_args(vimrc@, opts@.take(0)));
        assert(envs_view(envs@) =~= spec_base_envs(spec_sandbox(vimrc@)));
        assert(spec_base_envs(spec_sandbox(vimrc@)) =~= spec_envs(
            spec_sandbox(vimrc@),
            opts@.take(0),
        ));
    }
    let mut i: usize = 0;
    while i < opts.len()
        invariant
            0 <= i <= opts@.len(),
            args.deep_view() == spec_args(vimrc@, opts@.take(i as int)),
            envs_view(envs@) == spec_envs(spec_sandbox(vimrc@), opts@.take(i as int)),
        decreases opts.len() - i,
    {
        proof {
            assert(opts@.take(i + 1).drop_last() =~= opts@.take(i as int));
            assert(opts@.take(i + 1).last() == opts@[i as int]);
        }
        let ghost args_pre = args.deep_view();
        let ghost envs_pre = envs_view(envs@);
        match &opts[i] {
            StartupOption::Env(k, v) => {
                let ghost pre = envs@;
                envs.push((k.clone(), v.clone()));
                proof {
                    assert(envs_view(envs@) =~= envs_pre.push((k@, v@)));
                    assert(envs_pre.push((k@, v@)) =~= envs_pre + spec_opt_envs(
                        opts@[i as int],
                    ));
                }
            },
            StartupOption::Headless => {
                push_arg(&mut args, "--headless".to_owned());
                proof {
                    assert(args.deep_view() =~= args_pre + spec_opt_args(opts@[i as int]));
                }
            },
            StartupOption::SetRtp => {
                push_arg(&mut args, "--cmd".to_owned());
                push_arg(&mut args, "set rtp^=..".to_owned());
                proof {
                    assert(args.deep_view() =~= args_pre + spec_opt_args(opts@[i as int]));
                }
            },
            StartupOption::StartupTime(f) => {
                push_arg(&mut args, "--startuptime".to_owned());
                push_arg(&mut args, f.clone());
                proof {
                    assert(args.deep_view() =~= args_pre + spec_opt_args(opts@[i as int]));
                }
            },
            StartupOption::Quit => {
                push_arg(&mut args, "-c".to_owned());
                push_arg(&mut args, "quitall!".to_owned());
                proof {
                    assert(args.deep_view() =~= args_pre + spec_opt_args(opts@[i as int]));
                }
            },
            StartupOption::QuitWithCode => {
                push_arg(&mut args, "-S".to_owned());
                push_arg(&mut args, "../scripts/quit.vim".to_owned());
                proof {
                    assert(args.deep_view() =~= args_pre + spec_opt_args(opts@[i as int]));
                }
            },
        }
        proof {
            assert(envs_view(envs@) =~= envs_pre + spec_opt_envs(opts@[i as int]));
        }
        i = i + 1;
    }
    proof {
        assert(opts@.take(opts@.len() as int) =~= opts@);
    }
    CommandPlan {
        program: "nvim".to_owned(),
        args,
        envs,
        sandbox,
        recreate_sandbox,
    }
}

fn push_arg(args: &mut Vec<String>, a: String)
    ensures
        final(args).deep_view() == old(args).deep_view().push(a@),
{
    let ghost pre = *args;
    args.push(a);
    proof {
        crate::text::lemma_vec_string_push_deep_view(pre, *args, a);
    }
}

/// Plans the standard verification run for one init script: headless,
/// the working tree on the search path, quitting with the run's
/// outcome, in a freshly recreated sandbox.
pub fn test(vimrc: &str) -> (r: CommandPlan)
    ensures
        r.program@ == "nvim"@,
        r.recreate_sandbox,
        r.args.deep_view() == seq!["-u"@, vimrc@, "--headless"@, "--cmd"@, "set rtp^=.."@, "-S"@, "../scripts/quit.vim"@],
{
    let opts = standard_opts();
    let r = run(vimrc, true, &opts);
    proof {
        lemma_standard_args(vimrc@, opts@);
    }
    r
}

/// The same run as `test`, but keeping the sandbox - and with it the
/// cache file of the previous run - in place.
pub fn test_cache(vimrc: &str) -> (r: CommandPlan)
    ensures
        r.program@ == "nvim"@,
        !r.recreate_sandbox,
        r.args.deep_view() == seq!["-u"@, vimrc@, "--headless"@, "--cmd"@, "set rtp^=.."@, "-S"@, "../scripts/quit.vim"@],
{
    let opts = standard_opts();
    let r = run(vimrc, false, &opts);
    proof {
        lemma_standard_args(vimrc@, opts@);
    }
    r
}

fn standard_opts() -> (r: Vec<StartupOption>)
    ensures
        r@.len() == 3,
        r@[0] is Headless,
        r@[1] is SetRtp,
        r@[2] is QuitWithCode,
{
    let mut opts: Vec<StartupOption> = Vec::new();
    opts.push(StartupOption::Headless);
    opts.push(StartupOption::SetRtp);
    opts.push(StartupOption::QuitWithCode);
    opts
}

proof fn lemma_standard_args(vimrc: Seq<char>, opts: Seq<StartupOption>)
    requires
        opts.len() == 3,
        opts[0] is Headless,
        opts[1] is SetRtp,
        opts[2] is QuitWithCode,
    ensures
        spec_args(vimrc, opts) == seq!["-u"@, vimrc, "--headless"@, "--cmd"@, "set rtp^=.."@, "-S"@, "../scripts/quit.vim"@],
{
    let a2 = opts.drop_last();
    let a1 = a2.drop_last();
    let a0 = a1.drop_last();
    assert(a0 =~= Seq::<StartupOption>::empty());
    assert(spec_args(vimrc, a0) == seq!["-u"@, vimrc]);
    assert(a1.last() == opts[0]);
    assert(spec_args(vimrc, a1) == spec_args(vimrc, a0) + spec_opt_args(opts[0]));
    assert(a2.last() == opts[1]);
    assert(spec_args(vimrc, a2) == spec_args(vimrc, a1) + spec_opt_args(opts[1]));
    assert(opts.last() == opts[2]);
    assert(spec_args(vimrc, opts) == spec_args(vimrc, a2) + spec_opt_args(opts[2]));
    assert(spec_args(vimrc, opts) =~= seq!["-u"@, vimrc, "--headless"@, "--cmd"@, "set rtp^=.."@, "-S"@, "../scripts/quit.vim"@]);
}

} // verus!
