//! The command line's own rules: its arguments, which variable names a
//! launched command may not receive, the confirmation of a data reset, and
//! the lines that `list` prints.

use vstd::prelude::*;
use crate::error::{AppError, is_validation};
use crate::model::{AppSnapshot, SnapshotV};
use crate::text::{char_to_ascii_upper, chars_of, copy_opt, copy_strings, push_chars, string_from_chars, strip_bounds, trim, trimmed, upper_chars};
use crate::order::str_eq;
use crate::format::{decimal, decimal_digits};

verus! {

/// The parsed command line.
pub struct Cli {
    pub command: Option<Commands>,
    /// Project name (defaults to the locally selected active project).
    pub project: Option<String>,
    /// Working directory for the child command.
    pub cwd: Option<String>,
    /// Command to run (after `--`).
    pub command_args: Vec<String>,
}

/// The subcommands.
pub enum Commands {
    List,
    Preview,
    Run { cwd: Option<String>, command: Vec<String> },
    ResetTestData { confirm: Option<String> },
}

/// `p` is a prefix of `s`.
pub open spec fn has_prefix(s: Seq<char>, p: Seq<char>) -> bool {
    p.len() <= s.len() && s.take(p.len() as int) == p
}

/// Names that steer how programs load code or find executables.
pub open spec fn restricted_name(n: Seq<char>) -> bool {
    ||| n == "PATH"@ || n == "IFS"@ || n == "ENV"@ || n == "BASH_ENV"@ || n == "GCONV_PATH"@
    ||| n == "JAVA_TOOL_OPTIONS"@ || n == "NODE_OPTIONS"@ || n == "PERL5LIB"@ || n == "PERL5OPT"@
    ||| n == "PYTHONHOME"@ || n == "PYTHONPATH"@ || n == "RUBYLIB"@ || n == "RUBYOPT"@
    ||| has_prefix(n, "LD_"@) || has_prefix(n, "DYLD_"@)
}

/// A variable name is unsafe when, trimmed and upper-cased, it is restricted.
pub open spec fn unsafe_env_name(name: Seq<char>) -> bool {
    restricted_name(upper_chars(trim(name)))
}

/// Whether `p`'s characters begin `s`.
pub fn starts_with(s: &Vec<char>, p: &str) -> (res: bool)
    ensures
        res == has_prefix(s@, p@),
{
    let pc = chars_of(p);
    if pc.len() > s.len() {
        return false;
    }
    let mut i: usize = 0;
    while i < pc.len()
        invariant
            i <= pc@.len() <= s@.len(),
            pc@ == p@,
            s@.take(i as int) == pc@.take(i as int),
        decreases pc@.len() - i,
    {
        if s[i] != pc[i] {
            assert(s@.take(pc@.len() as int)[i as int] != pc@[i as int]);
            return false;
        }
        assert(s@.take(i + 1) =~= s@.take(i as int).push(s@[i as int]));
        assert(pc@.take(i + 1) =~= pc@.take(i as int).push(pc@[i as int]));
        i = i + 1;
    }
    assert(pc@.take(pc@.len() as int) =~= pc@);
    true
}

pub fn is_unsafe_env_name(name: &str) -> (res: bool)
    ensures
        res == unsafe_env_name(name@),
{
    let cs = chars_of(name);
    let (a, b) = strip_bounds(&cs, false);
    let ghost t = cs@.subrange(a as int, b as int);
    let mut up: Vec<char> = Vec::new();
    let mut i = a;
    while i < b
        invariant
            a <= i <= b <= cs@.len(),
            t == cs@.subrange(a as int, b as int),
            up@ =~= upper_chars(t.take(i - a)),
        decreases b - i,
    {
        let c = char_to_ascii_upper(cs[i]);
        up.push(c);
        assert(t.take(i + 1 - a) =~= t.take(i - a).push(cs@[i as int]));
        i = i + 1;
    }
    assert(t.take(b - a) =~= t);
    let n = string_from_chars(up.as_slice());
    n == String::from_str("PATH") || n == String::from_str("IFS") || n == String::from_str("ENV")
        || n == String::from_str("BASH_ENV") || n == String::from_str("GCONV_PATH")
        || n == String::from_str("JAVA_TOOL_OPTIONS") || n == String::from_str("NODE_OPTIONS")
        || n == String::from_str("PERL5LIB") || n == String::from_str("PERL5OPT")
        || n == String::from_str("PYTHONHOME") || n == String::from_str("PYTHONPATH")
        || n == String::from_str("RUBYLIB") || n == String::from_str("RUBYOPT")
        || starts_with(&up, "LD_") || starts_with(&up, "DYLD_")
}

/// Message refusing a restricted variable.
pub open spec fn restricted_message(name: Seq<char>) -> Seq<char> {
    "refusing to launch with restricted environment variable `"@ + name + "`"@
}

/// Refuses a launch whose variables include an unsafe name; the first such
/// name is reported.
pub fn reject_unsafe_env_names(env_vars: &[(String, String)]) -> (res: Result<(), AppError>)
    ensures
        match res {
            Ok(()) => forall|i: int| 0 <= i < env_vars@.len() ==> !unsafe_env_name(#[trigger] env_vars@[i].0@),
            Err(e) => exists|i: int| {
                &&& 0 <= i < env_vars@.len()
                &&& unsafe_env_name(#[trigger] env_vars@[i].0@)
                &&& forall|j: int| 0 <= j < i ==> !unsafe_env_name(#[trigger] env_vars@[j].0@)
                &&& is_validation(e, restricted_message(env_vars@[i].0@))
            },
        },
{
    let mut i: usize = 0;
    while i < env_vars.len()
        invariant
            i <= env_vars@.len(),
            forall|j: int| 0 <= j < i ==> !unsafe_env_name(#[trigger] env_vars@[j].0@),
        decreases env_vars@.len() - i,
    {
        if is_unsafe_env_name(env_vars[i].0.as_str()) {
            let msg = String::from_str("refusing to launch with restricted environment variable `")
                .concat(env_vars[i].0.as_str()).concat("`");
            let e = AppError::Validation(msg);
            assert(is_validation(e, restricted_message(env_vars@[i as int].0@)));
            return Err(e);
        }
        i = i + 1;
    }
    Ok(())
}

/// The phrase that confirms a data reset.
pub open spec fn reset_phrase() -> Seq<char> {
    "delete all data"@
}

pub open spec fn wrong_phrase_message() -> Seq<char> {
    "incorrect confirmation phrase \u{2014} pass --confirm \"delete all data\""@
}

pub open spec fn missing_phrase_message() -> Seq<char> {
    "reset-test-data is destructive; quit the app and rerun with --confirm \"delete all data\" to proceed"@
}

/// A reset goes ahead only with the exact confirmation phrase.
pub fn check_reset_confirmation(confirm: &Option<String>) -> (res: Result<(), AppError>)
    ensures
        match confirm {
            Some(p) => if p@ == reset_phrase() { res is Ok } else { res matches Err(e) && is_validation(e, wrong_phrase_message()) },
            None => res matches Err(e) && is_validation(e, missing_phrase_message()),
        },
{
    match confirm {
        Some(phrase) => {
            if *phrase == String::from_str("delete all data") {
                Ok(())
            } else {
                Err(AppError::Validation(String::from_str("incorrect confirmation phrase \u{2014} pass --confirm \"delete all data\"")))
            }
        },
        None => Err(AppError::Validation(String::from_str("reset-test-data is destructive; quit the app and rerun with --confirm \"delete all data\" to proceed"))),
    }
}

/// The line that `list` prints for the project at position `i`: a `* `
/// marker on the active project, its name, base environment and entry count.
pub open spec fn list_line_of(s: SnapshotV, i: int) -> Seq<char> {
    let p = s.projects[i];
    let n = p.entries.len();
    (if s.active == Some(p.id) { seq!['*', ' '] } else { seq![' ', ' '] }) + p.name + seq![' ', '('] + p.base + seq![',', ' ']
        + decimal_digits(n) + seq![' ']
        + (if n == 1 { seq!['e', 'n', 't', 'r', 'y'] } else { seq!['e', 'n', 't', 'r', 'i', 'e', 's'] }) + seq![')']
}

pub fn project_list_line(snapshot: &AppSnapshot, i: usize) -> (res: String)
    requires
        i < snapshot@.projects.len(),
    ensures
        res@ == list_line_of(snapshot@, i as int),
{
    let p = &snapshot.projects[i];
    let active = match &snapshot.active_project_id {
        Some(a) => str_eq(a.as_str(), p.id.as_str()),
        None => false,
    };
    let mut out: Vec<char> = Vec::new();
    if active {
        out.push('*');
    } else {
        out.push(' ');
    }
    out.push(' ');
    push_chars(&mut out, p.name.as_str());
    out.push(' ');
    out.push('(');
    push_chars(&mut out, p.active_base_environment.as_str());
    out.push(',');
    out.push(' ');
    let n = p.entries.len();
    let digits = decimal(n);
    let mut k: usize = 0;
    let ghost before = out@;
    while k < digits.len()
        invariant
            k <= digits@.len(),
            out@ == before + digits@.take(k as int),
        decreases digits@.len() - k,
    {
        out.push(digits[k]);
        assert(digits@.take(k + 1) =~= digits@.take(k as int).push(digits@[k as int]));
        k = k + 1;
    }
    assert(digits@.take(digits@.len() as int) =~= digits@);
    out.push(' ');
    if n == 1 {
        out.push('e');
        out.push('n');
        out.push('t');
        out.push('r');
        out.push('y');
    } else {
        out.push('e');
        out.push('n');
        out.push('t');
        out.push('r');
        out.push('i');
        out.push('e');
        out.push('s');
    }
    out.push(')');
    assert(out@ =~= list_line_of(snapshot@, i as int));
    string_from_chars(out.as_slice())
}

// ---------------------------------------------------------------- what to do

/// What the command line asks for.
pub enum CliAction {
    /// List the projects.
    List,
    /// Print the effective environment of a project (by name, or the active one).
    Preview { project: Option<String> },
    /// Run a command with a project's environment.
    Run { project: Option<String>, cwd: Option<String>, command: Vec<String> },
    /// Delete the local data, if confirmed.
    ResetTestData { confirm: Option<String> },
    /// Print the help.
    Help,
}

/// The action of a parsed command line: a subcommand, else a command to run
/// after `--`, else the help. A command runs in the working directory given
/// to `run`, else in the one given before the subcommand.
pub fn cli_action(cli: Cli) -> (a: CliAction)
    ensures
        match cli.command {
            Some(Commands::List) => a is List,
            Some(Commands::Preview) => a matches CliAction::Preview { project } && project == cli.project,
            Some(Commands::Run { cwd, command }) => a matches CliAction::Run { project, cwd: c, command: k }
                && project == cli.project && c == (if cwd is Some { cwd } else { cli.cwd }) && k@ == command@,
            Some(Commands::ResetTestData { confirm }) => a matches CliAction::ResetTestData { confirm: c } && c == confirm,
            None => if cli.command_args@.len() == 0 {
                a is Help
            } else {
                a matches CliAction::Run { project, cwd, command } && project == cli.project && cwd == cli.cwd
                    && command@ == cli.command_args@
            },
        },
{
    match cli.command {
        Some(Commands::List) => CliAction::List,
        Some(Commands::Preview) => CliAction::Preview { project: cli.project },
        Some(Commands::Run { cwd, command }) => {
            let dir = match cwd {
                Some(c) => Some(c),
                None => cli.cwd,
            };
            CliAction::Run { project: cli.project, cwd: dir, command }
        },
        Some(Commands::ResetTestData { confirm }) => CliAction::ResetTestData { confirm },
        None => {
            if cli.command_args.len() == 0 {
                CliAction::Help
            } else {
                CliAction::Run { project: cli.project, cwd: cli.cwd, command: cli.command_args }
            }
        },
    }
}

/// A command to launch: the program, its arguments, the directory to run
/// it in, and the variables to give it.
pub struct RunPlan {
    pub program: String,
    pub args: Vec<String>,
    pub working_directory: Option<String>,
    pub env_vars: Vec<(String, String)>,
}

pub open spec fn missing_command_message() -> Seq<char> {
    "run requires a command after `--`"@
}

/// The launch of `command` with a project's variables: the first word is
/// the program; the directory given on the command line wins over the
/// project's. A missing command, or a restricted variable name, refuses it.
pub fn plan_run(command: Vec<String>, cwd: Option<String>, working_directory: Option<String>, env_vars: Vec<(String, String)>) -> (res: Result<RunPlan, AppError>)
    ensures
        command@.len() == 0 ==> (res matches Err(e) && is_validation(e, missing_command_message())),
        command@.len() > 0 ==> match res {
            Ok(plan) => {
                &&& forall|i: int| 0 <= i < env_vars@.len() ==> !unsafe_env_name(#[trigger] env_vars@[i].0@)
                &&& plan.program@ == command@[0]@
                &&& plan.args@ == command@.skip(1)
                &&& plan.working_directory == (if cwd is Some { cwd } else { working_directory })
                &&& plan.env_vars@ == env_vars@
            },
            Err(e) => exists|i: int| {
                &&& 0 <= i < env_vars@.len()
                &&& unsafe_env_name(#[trigger] env_vars@[i].0@)
                &&& forall|j: int| 0 <= j < i ==> !unsafe_env_name(#[trigger] env_vars@[j].0@)
                &&& is_validation(e, restricted_message(env_vars@[i].0@))
            },
        },
{
    if command.len() == 0 {
        return Err(AppError::Validation(String::from_str("run requires a command after `--`")));
    }
    match reject_unsafe_env_names(env_vars.as_slice()) {
        Ok(()) => {},
        Err(e) => return Err(e),
    }
    let program = command[0].clone();
    let mut args: Vec<String> = Vec::new();
    let mut i: usize = 1;
    while i < command.len()
        invariant
            1 <= i <= command@.len(),
            args@ == command@.subrange(1, i as int),
        decreases command@.len() - i,
    {
        args.push(command[i].clone());
        assert(args@ =~= command@.subrange(1, i + 1));
        i = i + 1;
    }
    assert(args@ =~= command@.skip(1));
    let dir = match cwd {
        Some(c) => Some(c),
        None => working_directory,
    };
    Ok(RunPlan { program, args, working_directory: dir, env_vars })
}

/// The exit code the CLI leaves with after a launched command ends: none
/// when it succeeded, its own code otherwise, and 1 when it was killed by a
/// signal.
pub fn exit_code_after(code: Option<i32>) -> (res: Option<i32>)
    ensures
        res == match code {
            Some(0) => None,
            Some(c) => Some(c),
            None => Some(1i32),
        },
{
    match code {
        Some(0) => None,
        Some(c) => Some(c),
        None => Some(1),
    }
}

/// `t` occurs in `s`.
pub open spec fn contains_text(s: Seq<char>, t: Seq<char>) -> bool {
    exists|i: int| 0 <= i && i + t.len() <= s.len() && #[trigger] s.subrange(i, i + t.len()) == t
}

/// Whether `t` occurs in `s`.
pub fn find_text(s: &str, t: &str) -> (res: bool)
    ensures
        res == contains_text(s@, t@),
{
    let cs = chars_of(s);
    let ct = chars_of(t);
    let n = cs.len();
    let m = ct.len();
    if m > n {
        return false;
    }
    let mut i: usize = 0;
    while i <= n - m
        invariant
            cs@ == s@,
            ct@ == t@,
            n == cs@.len(),
            m == ct@.len(),
            m <= n,
            i <= n - m + 1,
            forall|k: int| 0 <= k < i ==> #[trigger] cs@.subrange(k, k + m) != ct@,
        decreases n - i,
    {
        let mut j: usize = 0;
        while j < m && cs[i + j] == ct[j]
            invariant
                i + m <= n,
                cs@ == s@,
                ct@ == t@,
                j <= m,
                n == cs@.len(),
                m == ct@.len(),
                forall|q: int| 0 <= q < j ==> cs@[i + q] == ct@[q],
            decreases m - j,
        {
            j = j + 1;
        }
        if j == m {
            assert(cs@.subrange(i as int, i + m) =~= ct@);
            return true;
        }
        assert(cs@.subrange(i as int, i + m)[j as int] != ct@[j as int]);
        i = i + 1;
    }
    assert forall|k: int| 0 <= k && k + t@.len() <= s@.len() implies #[trigger] s@.subrange(k, k + t@.len()) != t@ by {
        assert(cs@.subrange(k, k + m) != ct@);
    }
    false
}

pub open spec fn not_found_marker() -> Seq<char> {
    "could not be found"@
}

/// What deleting the keychain item with the `security` tool reported:
/// removed on success, absent when the tool says it could not be found,
/// else its trimmed complaint as an authentication error.
pub fn keychain_delete_outcome(success: bool, stderr: &str) -> (res: Result<bool, AppError>)
    ensures
        success ==> res == Ok::<bool, AppError>(true),
        !success && contains_text(stderr@, not_found_marker()) ==> res == Ok::<bool, AppError>(false),
        !success && !contains_text(stderr@, not_found_marker()) ==> (res matches Err(AppError::Auth(m)) && m@ == trim(stderr@)),
{
    if success {
        return Ok(true);
    }
    if find_text(stderr, "could not be found") {
        return Ok(false);
    }
    Err(AppError::Auth(trimmed(stderr)))
}

pub open spec fn desktop_running_message() -> Seq<char> {
    "quit the desktop app before running reset-test-data"@
}

/// A data reset is refused while the desktop app is running.
pub fn reset_refusal(desktop_running: bool) -> (res: Result<(), AppError>)
    ensures
        desktop_running ==> (res matches Err(e) && is_validation(e, desktop_running_message())),
        !desktop_running ==> res is Ok,
{
    if desktop_running {
        Err(AppError::Validation(String::from_str("quit the desktop app before running reset-test-data")))
    } else {
        Ok(())
    }
}

/// The lines printed after the local data was cleared.
pub open spec fn reset_report_of(data_dir_removed: bool, keychain_removed: bool) -> Seq<Seq<char>> {
    seq![
        "sigyn test data cleared"@,
        "local app data: "@ + (if data_dir_removed { "removed"@ } else { "already empty"@ }),
        "keychain entry: "@ + (if keychain_removed { "removed"@ } else { "not found"@ }),
    ]
}

pub fn reset_report_lines(data_dir_removed: bool, keychain_removed: bool) -> (lines: Vec<String>)
    ensures
        lines@.map_values(|l: String| l@) == reset_report_of(data_dir_removed, keychain_removed),
{
    let mut lines: Vec<String> = Vec::new();
    lines.push(String::from_str("sigyn test data cleared"));
    let data = if data_dir_removed { "removed" } else { "already empty" };
    lines.push(String::from_str("local app data: ").concat(data));
    let key = if keychain_removed { "removed" } else { "not found" };
    lines.push(String::from_str("keychain entry: ").concat(key));
    assert(lines@.map_values(|l: String| l@) =~= reset_report_of(data_dir_removed, keychain_removed));
    lines
}

} // verus!
