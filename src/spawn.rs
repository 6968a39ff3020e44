use vstd::prelude::*;
use vstd::string::StringExecFns;
use crate::error::AppError;

verus! {

/// One change to a child's environment.
#[derive(Debug, Clone, PartialEq, Eq)]
pub enum EnvOp {
    Assign(String, String),
    Unset(String),
}

pub open spec fn set_op(op: EnvOp, k: Seq<char>, v: Seq<char>) -> bool {
    match op {
        EnvOp::Assign(a, b) => a@ == k && b@ == v,
        _ => false,
    }
}

pub open spec fn remove_op(op: EnvOp, k: Seq<char>) -> bool {
    match op {
        EnvOp::Unset(a) => a@ == k,
        _ => false,
    }
}

/// The command to launch: the requested one, or the platform's default shell when
/// none was given.
pub fn effective_command(command: String, default_shell: String) -> (r: String)
    ensures
        r@ == if command@.len() == 0 {
            default_shell@
        } else {
            command@
        },
{
    if command.as_str().is_empty() {
        default_shell
    } else {
        command
    }
}

fn owned(s: &str) -> (r: String)
    ensures
        r@ == s@,
{
    String::from_str(s)
}

/// The fixed part of a child's environment: terminal capabilities, the login
/// shell's search path when known, and removal of the variables that mark a nested
/// agent session.
pub open spec fn base_env_ok(ops: Seq<EnvOp>, login_path: Option<Seq<char>>) -> bool {
    let p: int = if login_path is Some { 1 } else { 0 };
    &&& ops.len() == 5 + p
    &&& set_op(ops[0], "TERM"@, "xterm-256color"@)
    &&& set_op(ops[1], "COLORTERM"@, "truecolor"@)
    &&& (login_path is Some ==> set_op(ops[2], "PATH"@, login_path->0))
    &&& remove_op(ops[2 + p], "CLAUDECODE"@)
    &&& remove_op(ops[3 + p], "CLAUDE_CODE_SESSION"@)
    &&& remove_op(ops[4 + p], "CLAUDE_CODE_ENTRYPOINT"@)
}

/// The changes to apply, in order, to a child's environment: the fixed part, then
/// each caller-supplied override.
pub fn env_plan(login_path: Option<String>, overrides: &Vec<(String, String)>) -> (r: Vec<EnvOp>)
    ensures
        base_env_ok(r@.take(r@.len() - overrides@.len()), match login_path {
            Some(p) => Some(p@),
            None => None,
        }),
        r@.len() >= overrides@.len(),
        forall|i: int| 0 <= i < overrides@.len() ==> set_op(
            #[trigger] r@[r@.len() - overrides@.len() + i],
            overrides@[i].0@,
            overrides@[i].1@,
        ),
{
    let mut ops: Vec<EnvOp> = Vec::new();
    ops.push(EnvOp::Assign(owned("TERM"), owned("xterm-256color")));
    ops.push(EnvOp::Assign(owned("COLORTERM"), owned("truecolor")));
    match login_path {
        Some(p) => ops.push(EnvOp::Assign(owned("PATH"), p)),
        None => {},
    }
    ops.push(EnvOp::Unset(owned("CLAUDECODE")));
    ops.push(EnvOp::Unset(owned("CLAUDE_CODE_SESSION")));
    ops.push(EnvOp::Unset(owned("CLAUDE_CODE_ENTRYPOINT")));
    let ghost base = ops@;
    let b = ops.len();
    let mut i: usize = 0;
    while i < overrides.len()
        invariant
            b == base.len(),
            b <= 6,
            i <= overrides@.len(),
            ops@.len() == b + i,
            ops@.take(b as int) == base,
            forall|m: int| 0 <= m < i ==> set_op(#[trigger] ops@[b + m], overrides@[m].0@, overrides@[m].1@),
        decreases overrides@.len() - i,
    {
        let k = overrides[i].0.clone();
        let v = overrides[i].1.clone();
        ops.push(EnvOp::Assign(k, v));
        assert(ops@.take(b as int) =~= base);
        i = i + 1;
    }
    ops
}

/// The error for a child that could not start, with the requested and the resolved
/// command.
pub fn spawn_error(command: String, resolved: String, cause: String) -> (r: AppError)
    ensures
        r == (AppError::ProcessSpawn { command, resolved, message: cause }),
{
    AppError::ProcessSpawn { command, resolved, message: cause }
}

} // verus!
