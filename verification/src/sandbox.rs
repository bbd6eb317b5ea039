//! The sandboxed command surface: a fixed whitelist of read-only
//! programs, an argument filter against shell injection, and the exact
//! shaping of a command's output.

use vstd::prelude::*;
use vstd::string::*;

use crate::error::AppError;
use crate::text::{contains_char, contains_pair, has_pair, str_eq};

verus! {

/// The fixed set of commands the sandbox runs.
pub open spec fn allowed_command(s: Seq<char>) -> bool {
    ||| s == "rg"@
    ||| s == "grep"@
    ||| s == "head"@
    ||| s == "tail"@
    ||| s == "cat"@
    ||| s == "wc"@
    ||| s == "find"@
    ||| s == "ls"@
    ||| s == "sort"@
    ||| s == "uniq"@
    ||| s == "sed"@
    ||| s == "awk"@
    ||| s == "tr"@
    ||| s == "cut"@
    ||| s == "diff"@
    ||| s == "file"@
    ||| s == "stat"@
    ||| s == "du"@
    ||| s == "tree"@
}

/// Whether the sandbox runs this command at all.
pub fn is_allowed(command: &str) -> (r: bool)
    ensures
        r == allowed_command(command@),
{
    str_eq(command, "rg") || str_eq(command, "grep") || str_eq(command, "head") || str_eq(
        command,
        "tail",
    ) || str_eq(command, "cat") || str_eq(command, "wc") || str_eq(command, "find") || str_eq(
        command,
        "ls",
    ) || str_eq(command, "sort") || str_eq(command, "uniq") || str_eq(command, "sed") || str_eq(
        command,
        "awk",
    ) || str_eq(command, "tr") || str_eq(command, "cut") || str_eq(command, "diff") || str_eq(
        command,
        "file",
    ) || str_eq(command, "stat") || str_eq(command, "du") || str_eq(command, "tree")
}

/// An argument the filter lets through: no traversal and no shell
/// metacharacter.
pub open spec fn arg_ok(a: Seq<char>) -> bool {
    &&& !has_pair(a, '.', '.')
    &&& !a.contains('|')
    &&& !a.contains(';')
    &&& !a.contains('`')
    &&& !a.contains('$')
    &&& !a.contains('&')
    &&& !a.contains('\n')
    &&& !a.contains('\r')
}

/// Reject arguments that could enable shell injection or path
/// traversal.
pub fn validate_args(args: &Vec<String>) -> (r: Result<(), AppError>)
    ensures
        r is Ok <==> (forall|i: int| 0 <= i < args@.len() ==> arg_ok((#[trigger] args@[i])@)),
        r is Err ==> r->Err_0 is Forbidden,
{
    let mut i: usize = 0;
    while i < args.len()
        invariant
            i <= args@.len(),
            forall|j: int| 0 <= j < i ==> arg_ok((#[trigger] args@[j])@),
        decreases args@.len() - i,
    {
        let a = args[i].as_str();
        if contains_pair(a, '.', '.') {
            return Err(AppError::Forbidden(
                String::from_str("Path traversal in arguments not allowed"),
            ));
        }
        if contains_char(a, '|') || contains_char(a, ';') || contains_char(a, '`')
            || contains_char(a, '$') || contains_char(a, '&') || contains_char(a, '\n')
            || contains_char(a, '\r') {
            return Err(AppError::Forbidden(
                String::from_str("Shell metacharacter not allowed in arguments"),
            ));
        }
        if contains_pair(a, '$', '(') {
            return Err(AppError::Forbidden(
                String::from_str("Command substitution not allowed in arguments"),
            ));
        }
        i += 1;
    }
    Ok(())
}

/// Body of an exec request.
pub struct ExecRequest {
    pub command: String,
    pub args: Vec<String>,
    pub timeout_seconds: Option<u64>,
    pub max_output_bytes: Option<usize>,
}

/// What one command run reports.
pub struct ExecResponse {
    pub exit_code: i32,
    pub stdout: String,
    pub stderr: String,
    pub duration_ms: u64,
    pub truncated: bool,
}

/// The checked plan of a command run: what to spawn and the limits to
/// hold it to. The caller spawns the process in the repository's files
/// root with a cleared environment.
pub struct ExecPlan {
    pub command: String,
    pub args: Vec<String>,
    pub timeout_seconds: u64,
    pub max_output_bytes: usize,
}

/// Check a command request against the whitelist and the argument
/// filter, and fill in the configured limits.
pub fn plan_command(
    req: &ExecRequest,
    default_timeout_secs: u64,
    default_max_output_bytes: usize,
) -> (r: Result<ExecPlan, AppError>)
    ensures
        r is Ok <==> (allowed_command(req.command@) && (forall|i: int|
            0 <= i < req.args@.len() ==> arg_ok((#[trigger] req.args@[i])@))),
        match r {
            Ok(plan) => {
                &&& plan.command@ == req.command@
                &&& plan.args@.len() == req.args@.len()
                &&& (forall|i: int|
                    0 <= i < req.args@.len() ==> (#[trigger] plan.args@[i])@ == req.args@[i]@)
                &&& plan.timeout_seconds == (match req.timeout_seconds {
                    Some(t) => t,
                    None => default_timeout_secs,
                })
                &&& plan.max_output_bytes == (match req.max_output_bytes {
                    Some(m) => m,
                    None => default_max_output_bytes,
                })
            },
            Err(e) => e is Forbidden,
        },
{
    if !is_allowed(req.command.as_str()) {
        return Err(AppError::Forbidden(String::from_str("Command is not allowed")));
    }
    validate_args(&req.args)?;
    let mut args: Vec<String> = Vec::new();
    let mut i: usize = 0;
    while i < req.args.len()
        invariant
            i <= req.args@.len(),
            args@.len() == i,
            forall|j: int| 0 <= j < i ==> (#[trigger] args@[j])@ == req.args@[j]@,
        decreases req.args@.len() - i,
    {
        args.push(req.args[i].clone());
        i += 1;
    }
    let timeout_seconds = match req.timeout_seconds {
        Some(t) => t,
        None => default_timeout_secs,
    };
    let max_output_bytes = match req.max_output_bytes {
        Some(m) => m,
        None => default_max_output_bytes,
    };
    Ok(ExecPlan { command: req.command.clone(), args, timeout_seconds, max_output_bytes })
}

/// One captured output stream after the cap: the kept prefix and
/// whether anything was cut.
pub struct CappedOutput {
    pub stdout: Vec<u8>,
    pub stderr: Vec<u8>,
    pub truncated: bool,
}

/// Cap each output stream at the configured byte limit; the flag says
/// whether either stream lost bytes.
pub fn cap_output(stdout: Vec<u8>, stderr: Vec<u8>, max_output_bytes: usize) -> (r: CappedOutput)
    ensures
        r.stdout@ == (if stdout@.len() > max_output_bytes {
            stdout@.take(max_output_bytes as int)
        } else {
            stdout@
        }),
        r.stderr@ == (if stderr@.len() > max_output_bytes {
            stderr@.take(max_output_bytes as int)
        } else {
            stderr@
        }),
        r.truncated == (stdout@.len() > max_output_bytes || stderr@.len() > max_output_bytes),
{
    let mut truncated = false;
    let mut out = stdout;
    let mut err = stderr;
    if out.len() > max_output_bytes {
        truncated = true;
        out.truncate(max_output_bytes);
    }
    if err.len() > max_output_bytes {
        truncated = true;
        err.truncate(max_output_bytes);
    }
    CappedOutput { stdout: out, stderr: err, truncated }
}

/// The response reported when the wall-clock timeout expires: exit code
/// `-1`, empty stdout, a fixed message on stderr, nothing truncated.
pub fn timeout_response(duration_ms: u64) -> (r: ExecResponse)
    ensures
        r.exit_code == -1,
        r.stdout@ == Seq::<char>::empty(),
        r.stderr@ == "Command timed out"@,
        r.duration_ms == duration_ms,
        !r.truncated,
{
    ExecResponse {
        exit_code: -1,
        stdout: String::new(),
        stderr: String::from_str("Command timed out"),
        duration_ms,
        truncated: false,
    }
}

} // verus!
