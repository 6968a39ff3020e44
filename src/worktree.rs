use vstd::prelude::*;
use vstd::string::StringExecFns;
use crate::error::AppError;
use crate::text::{lossy_text, text_of};

verus! {

/// An isolated working directory of a repository, checked out to its own branch.
#[derive(Debug, Clone, PartialEq, Eq)]
pub struct WorktreeInfo {
    pub path: String,
    pub branch: String,
}

/// How one run of the version-control executable ended.
#[derive(Debug, Clone, PartialEq, Eq)]
pub enum ToolOutcome {
    /// The executable could not be started; carries the launch error.
    NotStarted(String),
    /// The executable ran; `success` is its exit status, `stderr` its error output.
    Exited { success: bool, stderr: Vec<u8> },
}

/// `<repo_root>/.worktrees/<branch>`.
pub open spec fn worktree_path_spec(repo_root: Seq<char>, branch: Seq<char>) -> Seq<char> {
    repo_root + "/.worktrees/"@ + branch
}

/// The error that a failed step reports: the launch error, or the prefix followed by
/// the captured error output.
pub open spec fn step_error(prefix: Seq<char>, step: ToolOutcome) -> Seq<char> {
    match step {
        ToolOutcome::NotStarted(e) => e@,
        ToolOutcome::Exited { stderr, .. } => prefix + lossy_text(stderr@),
    }
}

/// `e` is an external-tool error with message `msg`.
pub open spec fn tool_error(e: AppError, msg: Seq<char>) -> bool {
    match e {
        AppError::ExternalTool(m) => m@ == msg,
        _ => false,
    }
}

pub open spec fn step_succeeded(step: ToolOutcome) -> bool {
    step matches ToolOutcome::Exited { success: true, .. }
}

/// The location of the isolated directory of `branch` under `repo_root`.
pub fn worktree_path(repo_root: &str, branch: &str) -> (r: String)
    ensures
        r@ == worktree_path_spec(repo_root@, branch@),
{
    let s = String::from_str(repo_root);
    let s = s.concat("/.worktrees/");
    s.concat(branch)
}

fn owned(s: &str) -> (r: String)
    ensures
        r@ == s@,
{
    String::from_str(s)
}

/// Arguments of the step that creates `branch`.
pub fn branch_create_args(branch: &str) -> (r: Vec<String>)
    ensures
        r@.len() == 2,
        r@[0]@ == "branch"@,
        r@[1]@ == branch@,
{
    let mut v: Vec<String> = Vec::new();
    v.push(owned("branch"));
    v.push(owned(branch));
    v
}

/// Arguments of the step that adds the isolated directory checked out to `branch`.
pub fn worktree_add_args(repo_root: &str, branch: &str) -> (r: Vec<String>)
    ensures
        r@.len() == 4,
        r@[0]@ == "worktree"@,
        r@[1]@ == "add"@,
        r@[2]@ == worktree_path_spec(repo_root@, branch@),
        r@[3]@ == branch@,
{
    let mut v: Vec<String> = Vec::new();
    v.push(owned("worktree"));
    v.push(owned("add"));
    v.push(worktree_path(repo_root, branch));
    v.push(owned(branch));
    v
}

/// Arguments of the step that force-removes the isolated directory of `branch`.
pub fn worktree_remove_args(repo_root: &str, branch: &str) -> (r: Vec<String>)
    ensures
        r@.len() == 4,
        r@[0]@ == "worktree"@,
        r@[1]@ == "remove"@,
        r@[2]@ == "--force"@,
        r@[3]@ == worktree_path_spec(repo_root@, branch@),
{
    let mut v: Vec<String> = Vec::new();
    v.push(owned("worktree"));
    v.push(owned("remove"));
    v.push(owned("--force"));
    v.push(worktree_path(repo_root, branch));
    v
}

/// Arguments of the best-effort step that force-deletes `branch` after removal:
/// present only when deletion was asked for and the directory was removed.
pub fn branch_delete_args(branch: &str, delete_branch: bool, removed: bool) -> (r: Option<
    Vec<String>,
>)
    ensures
        r is Some <==> (delete_branch && removed),
        r is Some ==> r->0@.len() == 3 && r->0@[0]@ == "branch"@ && r->0@[1]@ == "-D"@
            && r->0@[2]@ == branch@,
{
    if delete_branch && removed {
        let mut v: Vec<String> = Vec::new();
        v.push(owned("branch"));
        v.push(owned("-D"));
        v.push(owned(branch));
        Some(v)
    } else {
        None
    }
}

fn step_failure(prefix: &str, step: &ToolOutcome) -> (r: String)
    ensures
        r@ == step_error(prefix@, *step),
{
    match step {
        ToolOutcome::NotStarted(e) => e.clone(),
        ToolOutcome::Exited { stderr, .. } => {
            let s = String::from_str(prefix);
            let t = text_of(stderr.as_slice());
            s.concat(t.as_str())
        },
    }
}

/// Result of creating the isolated directory of `branch`, from how its two steps
/// ended. The branch-creation step is attempted only so that a missing branch
/// exists; its failure (the branch already exists) is discarded, so that the
/// operation can be retried.
pub fn create_worktree(
    repo_root: &str,
    branch: &str,
    branch_step: &ToolOutcome,
    add_step: &ToolOutcome,
) -> (r: Result<WorktreeInfo, AppError>)
    ensures
        r is Ok <==> step_succeeded(*add_step),
        r is Ok ==> r->Ok_0.path@ == worktree_path_spec(repo_root@, branch@) && r->Ok_0.branch@
            == branch@,
        r is Err ==> tool_error(r->Err_0, step_error("Failed to create worktree: "@, *add_step)),
{
    match add_step {
        ToolOutcome::Exited { success: true, .. } => Ok(
            WorktreeInfo { path: worktree_path(repo_root, branch), branch: owned(branch) },
        ),
        _ => Err(AppError::ExternalTool(step_failure("Failed to create worktree: ", add_step))),
    }
}

/// Result of removing the isolated directory, from how its removal step ended.
pub fn remove_worktree(remove_step: &ToolOutcome) -> (r: Result<(), AppError>)
    ensures
        r is Ok <==> step_succeeded(*remove_step),
        r is Err ==> tool_error(r->Err_0, step_error("Failed to remove worktree: "@, *remove_step)),
{
    match remove_step {
        ToolOutcome::Exited { success: true, .. } => Ok(()),
        _ => Err(AppError::ExternalTool(step_failure("Failed to remove worktree: ", remove_step))),
    }
}

} // verus!
