//! The edge runtime's command line: `--project-dir <path>`, `--bind
//! <addr>`, `--state-dir <path>`, the ignored legacy `--app <name>`, and
//! `--help` / `-h`.
use vstd::prelude::*;

verus! {

/// The monitor server's socket when `--bind` is not given.
pub const DEFAULT_BIND: &'static str = "127.0.0.1:13001";

/// The arguments of a run.
#[derive(Debug, Clone)]
pub struct CliArgs {
    pub project_dir: String,
    pub bind: String,
    /// `None`: derived from the project directory.
    pub state_dir: Option<String>,
}

/// What the command line asks for.
#[derive(Debug, Clone)]
pub enum CliRequest {
    Help,
    Run(CliArgs),
}

/// Why a command line is refused.
#[derive(Debug, Clone)]
pub enum CliError {
    /// The flag came last, with no value after it.
    MissingValue(String),
    Unknown(String),
    MissingProjectDir,
}

/// The outcome of parsing, as plain values.
pub enum Parsed {
    Help,
    Run { project_dir: Seq<char>, bind: Seq<char>, state_dir: Option<Seq<char>> },
    MissingValue(Seq<char>),
    Unknown(Seq<char>),
    MissingProjectDir,
}

/// Parses `args[i..]` with the values seen so far. Flags are read left to
/// right: a help flag ends parsing, an unknown argument or a flag without
/// its value is refused where it stands, a repeated flag's last value
/// wins, and `--app` skips the value after it, if any.
pub open spec fn parse_from(
    args: Seq<Seq<char>>,
    i: int,
    project_dir: Option<Seq<char>>,
    bind: Seq<char>,
    state_dir: Option<Seq<char>>,
) -> Parsed
    decreases args.len() - i,
{
    if i < 0 || i >= args.len() {
        match project_dir {
            Some(p) => Parsed::Run { project_dir: p, bind, state_dir },
            None => Parsed::MissingProjectDir,
        }
    } else {
        let a = args[i];
        let has_value = i + 1 < args.len();
        if a == "--project-dir"@ {
            if has_value {
                parse_from(args, i + 2, Some(args[i + 1]), bind, state_dir)
            } else {
                Parsed::MissingValue(a)
            }
        } else if a == "--bind"@ {
            if has_value {
                parse_from(args, i + 2, project_dir, args[i + 1], state_dir)
            } else {
                Parsed::MissingValue(a)
            }
        } else if a == "--state-dir"@ {
            if has_value {
                parse_from(args, i + 2, project_dir, bind, Some(args[i + 1]))
            } else {
                Parsed::MissingValue(a)
            }
        } else if a == "--app"@ {
            parse_from(args, if has_value { i + 2 } else { i + 1 }, project_dir, bind, state_dir)
        } else if a == "--help"@ || a == "-h"@ {
            Parsed::Help
        } else {
            Parsed::Unknown(a)
        }
    }
}

/// Parsing a whole command line (the program name left out).
pub open spec fn parse(args: Seq<Seq<char>>) -> Parsed {
    parse_from(args, 0, None, DEFAULT_BIND@, None)
}

pub open spec fn opt_view(o: Option<String>) -> Option<Seq<char>> {
    match o {
        Some(s) => Some(s@),
        None => None,
    }
}

/// Whether a parse result is the one the spec gives.
pub open spec fn parsed_as(r: Result<CliRequest, CliError>, p: Parsed) -> bool {
    match p {
        Parsed::Help => r matches Ok(CliRequest::Help),
        Parsed::Run { project_dir, bind, state_dir } => r matches Ok(CliRequest::Run(a)) && a.project_dir@
            == project_dir && a.bind@ == bind && opt_view(a.state_dir) == state_dir,
        Parsed::MissingValue(f) => r matches Err(CliError::MissingValue(g)) && g@ == f,
        Parsed::Unknown(f) => r matches Err(CliError::Unknown(g)) && g@ == f,
        Parsed::MissingProjectDir => r matches Err(CliError::MissingProjectDir),
    }
}

fn is_flag(a: &String, flag: &str) -> (r: bool)
    ensures
        r == (a@ == flag@),
{
    *a == flag.to_string()
}

/// Reads the command line's arguments, program name left out.
pub fn parse_args(args: &Vec<String>) -> (r: Result<CliRequest, CliError>)
    ensures
        parsed_as(r, parse(crate::text::views(args@))),
{
    let ghost v = crate::text::views(args@);
    let mut project_dir: Option<String> = None;
    let mut bind: String = DEFAULT_BIND.to_string();
    let mut state_dir: Option<String> = None;
    let mut i: usize = 0;
    assert(v.len() == args@.len());
    while i < args.len()
        invariant
            v == crate::text::views(args@),
            v.len() == args@.len(),
            i <= args@.len() + 1,
            parse(v) == parse_from(v, i as int, opt_view(project_dir), bind@, opt_view(state_dir)),
        decreases args@.len() + 1 - i,
    {
        let a = &args[i];
        assert(v[i as int] == a@);
        let has_value = i + 1 < args.len();
        if is_flag(a, "--project-dir") {
            if !has_value {
                return Err(CliError::MissingValue(a.clone()));
            }
            assert(v[i + 1] == args@[i + 1]@);
            project_dir = Some(args[i + 1].clone());
            i = i + 2;
        } else if is_flag(a, "--bind") {
            if !has_value {
                return Err(CliError::MissingValue(a.clone()));
            }
            assert(v[i + 1] == args@[i + 1]@);
            bind = args[i + 1].clone();
            i = i + 2;
        } else if is_flag(a, "--state-dir") {
            if !has_value {
                return Err(CliError::MissingValue(a.clone()));
            }
            assert(v[i + 1] == args@[i + 1]@);
            state_dir = Some(args[i + 1].clone());
            i = i + 2;
        } else if is_flag(a, "--app") {
            i = if has_value {
                i + 2
            } else {
                i + 1
            };
        } else if is_flag(a, "--help") || is_flag(a, "-h") {
            return Ok(CliRequest::Help);
        } else {
            return Err(CliError::Unknown(a.clone()));
        }
    }
    match project_dir {
        Some(p) => Ok(CliRequest::Run(CliArgs { project_dir: p, bind, state_dir })),
        None => Err(CliError::MissingProjectDir),
    }
}

impl CliError {
    /// The message the runtime exits with.
    pub fn message(&self) -> (s: String)
        ensures
            s@ == (match *self {
                CliError::MissingValue(f) => f@ + " requires a value"@,
                CliError::Unknown(a) => "unknown argument: "@ + a@,
                CliError::MissingProjectDir => "--project-dir is required"@,
            }),
    {
        match self {
            CliError::MissingValue(f) => {
                let mut s = f.clone();
                s.append(" requires a value");
                s
            },
            CliError::Unknown(a) => {
                let mut s = String::from_str("unknown argument: ");
                s.append(a.as_str());
                s
            },
            CliError::MissingProjectDir => String::from_str("--project-dir is required"),
        }
    }
}

} // verus!
